//! The segmentation variants, one per source family.
//!
//! Variant A splits dense single-column text at newlines and at whitespace
//! right after a digit (a price running into the next dish name). Variant B
//! accumulates lines into a buffer until a terminator line (a trailing digit
//! run or a regional suffix) closes the entry. Variant C takes web-scraped
//! text blocks and accepts only blocks with a fixed number of lines.

use vstd::prelude::*;

use crate::extract::{extract_entry, extract_fields, Extracted};
use crate::item::{Item, ItemView};
use crate::text::{
    append_chars, chars_of, contains_lit, contains_seq, chars_have_lower,
    chars_have_ascii_digit, has_alnum_seq, has_lower_seq, has_ascii_digit_seq, is_ascii_digit_char,
    is_ascii_white_char, is_white_char, replace_chars, replace_spec, split_chars,
    split_spec, trim_white, trim_white_spec,
};

verus! {

pub open spec fn item_view_of(e: Extracted, restaurant: Seq<char>, updated: Seq<char>) -> ItemView {
    ItemView {
        item_name: e.name,
        ingredients: e.ingredients,
        updated: updated,
        price: e.price,
        restaurant: restaurant,
    }
}

// ---------------------------------------------------------------------------
// Variant A: digit-boundary split
// ---------------------------------------------------------------------------

/// A segment ends at a newline, or at whitespace immediately following a
/// digit; `prev` is the character just before the one at hand.
pub open spec fn seg_digit_go(
    s: Seq<char>,
    prev: char,
    cur: Seq<char>,
    acc: Seq<Seq<char>>,
) -> Seq<Seq<char>>
    decreases s.len(),
{
    if s.len() == 0 {
        acc.push(cur)
    } else {
        let c = s.first();
        if c == '\n' || (is_white_char(c) && is_ascii_digit_char(prev)) {
            seg_digit_go(s.drop_first(), c, Seq::empty(), acc.push(cur))
        } else {
            seg_digit_go(s.drop_first(), c, cur.push(c), acc)
        }
    }
}

pub open spec fn segment_digit_boundary(s: Seq<char>) -> Seq<Seq<char>> {
    seg_digit_go(s, '\u{0}', Seq::empty(), Seq::empty())
}

/// A trimmed segment is admitted as an entry when it is longer than three
/// characters, holds a lowercase letter and a digit, and matches no entry of
/// the denylist of non-dish lines.
pub open spec fn bateau_admits(t: Seq<char>) -> bool {
    t.len() > 3 && has_lower_seq(t) && has_ascii_digit_seq(t) && !contains_seq(t, "minutes"@)
        && !contains_seq(t, "chalkboard"@)
}

pub open spec fn bateau_items_go(entries: Seq<Seq<char>>, updated: Seq<char>) -> Seq<ItemView>
    decreases entries.len(),
{
    if entries.len() == 0 {
        Seq::empty()
    } else {
        let t = trim_white_spec(entries.first());
        let rest = bateau_items_go(entries.drop_first(), updated);
        if bateau_admits(t) {
            match extract_fields(t) {
                Some(e) => seq![item_view_of(e, "Bateau"@, updated)] + rest,
                None => rest,
            }
        } else {
            rest
        }
    }
}

/// Everything variant A makes of a normalized menu.
pub open spec fn bateau_spec(menu: Seq<char>, updated: Seq<char>) -> Seq<ItemView> {
    bateau_items_go(segment_digit_boundary(menu), updated)
}

fn segment_digit_exec(v: &Vec<char>) -> (r: Vec<Vec<char>>)
    ensures
        r.deep_view() == segment_digit_boundary(v@),
{
    let ghost total = segment_digit_boundary(v@);
    let mut acc: Vec<Vec<char>> = Vec::new();
    let mut cur: Vec<char> = Vec::new();
    let mut prev: char = '\u{0}';
    let mut i: usize = 0;
    let n = v.len();
    proof {
        assert(v@.subrange(0, n as int) =~= v@);
        assert(acc.deep_view() =~= Seq::<Seq<char>>::empty());
    }
    while i < n
        invariant
            i <= n,
            n == v@.len(),
            seg_digit_go(v@.subrange(i as int, n as int), prev, cur@, acc.deep_view())
                == total,
        decreases n - i,
    {
        let ghost suf = v@.subrange(i as int, n as int);
        proof {
            assert(suf.first() == v@[i as int]);
            assert(suf.drop_first() =~= v@.subrange(i as int + 1, n as int));
        }
        let c = v[i];
        if c == '\n' || (crate::text::char_is_white(c) && crate::text::char_is_ascii_digit(
            prev,
        )) {
            let ghost old_acc = acc.deep_view();
            let ghost old_cur = cur@;
            acc.push(cur);
            cur = Vec::new();
            proof {
                assert(acc.deep_view() =~~= old_acc.push(old_cur));
            }
        } else {
            cur.push(c);
        }
        prev = c;
        i = i + 1;
    }
    proof {
        assert(v@.subrange(i as int, n as int) =~= Seq::<char>::empty());
    }
    let ghost old_acc = acc.deep_view();
    let ghost old_cur = cur@;
    acc.push(cur);
    proof {
        assert(acc.deep_view() =~~= old_acc.push(old_cur));
    }
    acc
}

/// Variant A on a normalized dense PDF menu; `updated` dates the records.
pub fn bateau_parse(menu: String, updated: String) -> (items: Vec<Item>)
    ensures
        items.deep_view() == bateau_spec(menu@, updated@),
{
    let v = chars_of(menu.as_str());
    let entries = segment_digit_exec(&v);
    let ghost entry_views = segment_digit_boundary(menu@);
    let mut out: Vec<Item> = Vec::new();
    let mut i: usize = 0;
    let n = entries.len();
    proof {
        assert(entry_views.subrange(0, n as int) =~~= entry_views);
        assert(out.deep_view() + bateau_items_go(entry_views, updated@) =~~= bateau_items_go(
            entry_views,
            updated@,
        ));
    }
    while i < n
        invariant
            i <= n,
            n == entries@.len(),
            entries.deep_view() == entry_views,
            bateau_spec(menu@, updated@) == out.deep_view() + bateau_items_go(
                entry_views.subrange(i as int, n as int),
                updated@,
            ),
        decreases n - i,
    {
        let ghost suf = entry_views.subrange(i as int, n as int);
        proof {
            assert(suf.first() == entry_views[i as int]);
            assert(suf.drop_first() =~= entry_views.subrange(i as int + 1, n as int));
            assert(entries@[i as int]@ == entry_views[i as int]);
        }
        let t = trim_white(&entries[i]);
        let admitted = t.len() > 3 && chars_have_lower(&t) && chars_have_ascii_digit(&t)
            && !contains_lit(&t, "minutes") && !contains_lit(&t, "chalkboard");
        if admitted {
            match extract_entry(&t, "Bateau", &updated) {
                Some(item) => {
                    let ghost old_out = out.deep_view();
                    let ghost iv = item@;
                    out.push(item);
                    proof {
                        assert(out.deep_view() =~~= old_out.push(iv));
                        assert(old_out + (seq![iv] + bateau_items_go(
                            suf.drop_first(),
                            updated@,
                        )) =~~= out.deep_view() + bateau_items_go(suf.drop_first(), updated@));
                    }
                },
                None => {},
            }
        }
        i = i + 1;
    }
    proof {
        assert(entry_views.subrange(i as int, n as int) =~~= Seq::<Seq<char>>::empty());
        assert(out.deep_view() + Seq::<ItemView>::empty() =~~= out.deep_view());
    }
    out
}

// ---------------------------------------------------------------------------
// Variant B: accumulate until a terminator line
// ---------------------------------------------------------------------------

/// A comma, one ASCII whitespace character, then `wa` — the tail of a
/// regional oyster origin such as an inlet name.
pub open spec fn wa_quad_at(l: Seq<char>, i: int) -> bool {
    0 <= i && i + 4 <= l.len() && l[i] == ',' && is_ascii_white_char(l[i + 1]) && l[i + 2]
        == 'w' && l[i + 3] == 'a'
}

/// The regional-suffix terminator: a `, wa` occurrence anywhere, or a line
/// ending in `mp` (market price).
pub open spec fn oyster_mark(l: Seq<char>) -> bool {
    (exists|i: int| #[trigger] wa_quad_at(l, i)) || (l.len() >= 2 && l[l.len() - 2] == 'm'
        && l[l.len() - 1] == 'p')
}

/// A line that closes the entry under accumulation.
pub open spec fn is_terminator_line(l: Seq<char>) -> bool {
    oyster_mark(l) || (l.len() > 0 && is_ascii_digit_char(l.last()))
}

/// Lines that reset the buffer without emitting: operational notices, and
/// lines without a single lowercase letter.
pub open spec fn west_denied(l: Seq<char>) -> bool {
    !has_lower_seq(l) || contains_seq(l, "consumption"@) || contains_seq(l, "parties"@)
        || contains_seq(l, "employees"@) || contains_seq(l, "manager"@) || contains_seq(
        l,
        "Please"@,
    )
}

pub open spec fn seg_west_go(
    lines: Seq<Seq<char>>,
    buf: Seq<char>,
    acc: Seq<Seq<char>>,
) -> Seq<Seq<char>>
    decreases lines.len(),
{
    if lines.len() == 0 {
        acc
    } else {
        let l = trim_white_spec(lines.first());
        if west_denied(l) {
            seg_west_go(lines.drop_first(), Seq::empty(), acc)
        } else {
            let buf2 = buf + l;
            if is_terminator_line(l) {
                seg_west_go(lines.drop_first(), Seq::empty(), acc.push(buf2))
            } else {
                seg_west_go(lines.drop_first(), buf2, acc)
            }
        }
    }
}

/// Variant B segmentation: line ends are first forced after ` mp` and after
/// `inlet, wa`, then lines accumulate until a terminator closes an entry.
pub open spec fn west_segments(menu: Seq<char>) -> Seq<Seq<char>> {
    let s1 = replace_spec(menu, " mp"@, " mp\n"@);
    let s2 = replace_spec(s1, "inlet, wa"@, "inlet, wa\n"@);
    seg_west_go(split_spec(s2, '\n'), Seq::empty(), Seq::empty())
}

pub open spec fn west_items_go(entries: Seq<Seq<char>>, updated: Seq<char>) -> Seq<ItemView>
    decreases entries.len(),
{
    if entries.len() == 0 {
        Seq::empty()
    } else {
        let rest = west_items_go(entries.drop_first(), updated);
        match extract_fields(entries.first()) {
            Some(e) => seq![item_view_of(e, "Westward"@, updated)] + rest,
            None => rest,
        }
    }
}

/// Everything variant B makes of a normalized menu.
pub open spec fn west_spec(menu: Seq<char>, updated: Seq<char>) -> Seq<ItemView> {
    west_items_go(west_segments(menu), updated)
}

fn has_oyster_mark(v: &Vec<char>) -> (r: bool)
    ensures
        r == oyster_mark(v@),
{
    let n = v.len();
    if n >= 2 && v[n - 2] == 'm' && v[n - 1] == 'p' {
        return true;
    }
    if n < 4 {
        proof {
            assert forall|k: int| !wa_quad_at(v@, k) by {}
        }
        return false;
    }
    let bound = n - 4;
    let mut i: usize = 0;
    while i <= bound
        invariant
            n == v@.len(),
            4 <= n,
            bound == n - 4,
            i <= bound + 1,
            forall|k: int| 0 <= k < i ==> !wa_quad_at(v@, k),
        decreases bound + 1 - i,
    {
        if v[i] == ',' && crate::text::char_is_ascii_white(v[i + 1]) && v[i + 2] == 'w'
            && v[i + 3] == 'a' {
            proof {
                assert(wa_quad_at(v@, i as int));
            }
            return true;
        }
        i = i + 1;
    }
    proof {
        assert forall|k: int| !wa_quad_at(v@, k) by {
            if 0 <= k && k + 4 <= v@.len() {
                assert(k < i);
            }
        }
    }
    false
}

/// Variant B on a normalized columnar PDF menu; `updated` dates the records.
pub fn west_parse(menu: String, updated: String) -> (items: Vec<Item>)
    ensures
        items.deep_view() == west_spec(menu@, updated@),
{
    let v = chars_of(menu.as_str());
    let pat1 = chars_of(" mp");
    let rep1 = chars_of(" mp\n");
    let pat2 = chars_of("inlet, wa");
    let rep2 = chars_of("inlet, wa\n");
    proof {
        reveal_strlit(" mp");
        reveal_strlit("inlet, wa");
        assert(pat1@.len() > 0);
        assert(pat2@.len() > 0);
    }
    let s1 = replace_chars(&v, &pat1, &rep1);
    let s2 = replace_chars(&s1, &pat2, &rep2);
    let lines = split_chars(&s2, '\n');
    let ghost line_views = lines.deep_view();
    let ghost segments = west_segments(menu@);

    let mut entries: Vec<Vec<char>> = Vec::new();
    let mut buf: Vec<char> = Vec::new();
    let mut i: usize = 0;
    let n = lines.len();
    proof {
        assert(line_views.subrange(0, n as int) =~~= line_views);
        assert(entries.deep_view() =~~= Seq::<Seq<char>>::empty());
    }
    while i < n
        invariant
            i <= n,
            n == lines@.len(),
            line_views == lines.deep_view(),
            seg_west_go(line_views.subrange(i as int, n as int), buf@, entries.deep_view())
                == segments,
        decreases n - i,
    {
        let ghost suf = line_views.subrange(i as int, n as int);
        proof {
            assert(suf.first() == line_views[i as int]);
            assert(suf.drop_first() =~= line_views.subrange(i as int + 1, n as int));
            assert(lines@[i as int]@ == line_views[i as int]);
        }
        let l = trim_white(&lines[i]);
        let denied = !chars_have_lower(&l) || contains_lit(&l, "consumption") || contains_lit(
            &l,
            "parties",
        ) || contains_lit(&l, "employees") || contains_lit(&l, "manager") || contains_lit(
            &l,
            "Please",
        );
        if denied {
            buf = Vec::new();
        } else {
            append_chars(&mut buf, &l);
            let terminator = has_oyster_mark(&l) || (l.len() > 0 && crate::text::char_is_ascii_digit(
                l[l.len() - 1],
            ));
            proof {
                if l@.len() > 0 {
                    assert(l@.last() == l@[l@.len() - 1]);
                }
            }
            if terminator {
                let ghost old_entries = entries.deep_view();
                let ghost old_buf = buf@;
                entries.push(buf);
                buf = Vec::new();
                proof {
                    assert(entries.deep_view() =~~= old_entries.push(old_buf));
                }
            }
        }
        i = i + 1;
    }
    proof {
        assert(line_views.subrange(i as int, n as int) =~~= Seq::<Seq<char>>::empty());
        assert(entries.deep_view() == segments);
    }

    let ghost entry_views = entries.deep_view();
    let mut out: Vec<Item> = Vec::new();
    let mut j: usize = 0;
    let m = entries.len();
    proof {
        assert(entry_views.subrange(0, m as int) =~~= entry_views);
        assert(out.deep_view() + west_items_go(entry_views, updated@) =~~= west_items_go(
            entry_views,
            updated@,
        ));
    }
    while j < m
        invariant
            j <= m,
            m == entries@.len(),
            entries.deep_view() == entry_views,
            west_spec(menu@, updated@) == out.deep_view() + west_items_go(
                entry_views.subrange(j as int, m as int),
                updated@,
            ),
        decreases m - j,
    {
        let ghost suf = entry_views.subrange(j as int, m as int);
        proof {
            assert(suf.first() == entry_views[j as int]);
            assert(suf.drop_first() =~= entry_views.subrange(j as int + 1, m as int));
            assert(entries@[j as int]@ == entry_views[j as int]);
        }
        match extract_entry(&entries[j], "Westward", &updated) {
            Some(item) => {
                let ghost old_out = out.deep_view();
                let ghost iv = item@;
                out.push(item);
                proof {
                    assert(out.deep_view() =~~= old_out.push(iv));
                    assert(old_out + (seq![iv] + west_items_go(suf.drop_first(), updated@))
                        =~~= out.deep_view() + west_items_go(suf.drop_first(), updated@));
                }
            },
            None => {},
        }
        j = j + 1;
    }
    proof {
        assert(entry_views.subrange(j as int, m as int) =~~= Seq::<Seq<char>>::empty());
        assert(out.deep_view() + Seq::<ItemView>::empty() =~~= out.deep_view());
    }
    out
}

// ---------------------------------------------------------------------------
// Variant C: fixed-line-count blocks from scraped pages
// ---------------------------------------------------------------------------

/// Only lines holding at least one letter or digit count as block lines.
pub open spec fn filter_alnum_lines(ls: Seq<Seq<char>>) -> Seq<Seq<char>>
    decreases ls.len(),
{
    if ls.len() == 0 {
        Seq::empty()
    } else {
        let rest = filter_alnum_lines(ls.drop_first());
        if has_alnum_seq(ls.first()) {
            seq![ls.first()] + rest
        } else {
            rest
        }
    }
}

/// Every piece stripped of surrounding whitespace; empty pieces stay.
pub open spec fn trim_all_white(ps: Seq<Seq<char>>) -> Seq<Seq<char>>
    decreases ps.len(),
{
    if ps.len() == 0 {
        Seq::empty()
    } else {
        seq![trim_white_spec(ps.first())] + trim_all_white(ps.drop_first())
    }
}

/// A two-line block: name, then comma-separated ingredients; the price is
/// unknown for this source.
pub open spec fn canlis_item(
    name: Seq<char>,
    ing_line: Seq<char>,
    updated: Seq<char>,
) -> ItemView {
    ItemView {
        item_name: name,
        ingredients: trim_all_white(split_spec(ing_line, ',')),
        updated: updated,
        price: seq!['n', '/', 'a'],
        restaurant: "Canlis"@,
    }
}

/// Variant C with two-line blocks; a block holding the stop marker ends the
/// enumeration, every other block counts only when exactly two of its lines
/// hold text.
pub open spec fn canlis_go(blocks: Seq<Seq<char>>, updated: Seq<char>) -> Seq<ItemView>
    decreases blocks.len(),
{
    if blocks.len() == 0 {
        Seq::empty()
    } else if contains_seq(blocks.first(), "menu"@) {
        Seq::empty()
    } else {
        let ls = filter_alnum_lines(split_spec(blocks.first(), '\n'));
        let rest = canlis_go(blocks.drop_first(), updated);
        if ls.len() == 2 {
            seq![canlis_item(ls[0], ls[1], updated)] + rest
        } else {
            rest
        }
    }
}

fn filter_alnum_exec(ls: &Vec<Vec<char>>) -> (r: Vec<Vec<char>>)
    ensures
        r.deep_view() == filter_alnum_lines(ls.deep_view()),
{
    let ghost full = ls.deep_view();
    let mut out: Vec<Vec<char>> = Vec::new();
    let mut i: usize = 0;
    let n = ls.len();
    proof {
        assert(full.subrange(0, n as int) =~~= full);
        assert(out.deep_view() + filter_alnum_lines(full) =~~= filter_alnum_lines(full));
    }
    while i < n
        invariant
            i <= n,
            n == ls@.len(),
            full == ls.deep_view(),
            filter_alnum_lines(full) == out.deep_view() + filter_alnum_lines(
                full.subrange(i as int, n as int),
            ),
        decreases n - i,
    {
        let ghost suf = full.subrange(i as int, n as int);
        proof {
            assert(suf.first() == full[i as int]);
            assert(suf.drop_first() =~= full.subrange(i as int + 1, n as int));
            assert(ls@[i as int]@ == full[i as int]);
        }
        if crate::text::chars_have_alnum(&ls[i]) {
            let ghost old_out = out.deep_view();
            let kept = crate::text::copy_range(&ls[i], 0, ls[i].len());
            proof {
                assert(kept@ == suf.first());
            }
            out.push(kept);
            proof {
                assert(out.deep_view() =~~= old_out.push(suf.first()));
                assert(old_out + (seq![suf.first()] + filter_alnum_lines(suf.drop_first()))
                    =~~= out.deep_view() + filter_alnum_lines(suf.drop_first()));
            }
        }
        i = i + 1;
    }
    proof {
        assert(full.subrange(i as int, n as int) =~~= Seq::<Seq<char>>::empty());
        assert(out.deep_view() + Seq::<Seq<char>>::empty() =~~= out.deep_view());
    }
    out
}

fn trim_all_white_exec(ps: &Vec<Vec<char>>) -> (r: Vec<Vec<char>>)
    ensures
        r.deep_view() == trim_all_white(ps.deep_view()),
{
    let ghost full = ps.deep_view();
    let mut out: Vec<Vec<char>> = Vec::new();
    let mut i: usize = 0;
    let n = ps.len();
    proof {
        assert(full.subrange(0, n as int) =~~= full);
        assert(out.deep_view() + trim_all_white(full) =~~= trim_all_white(full));
    }
    while i < n
        invariant
            i <= n,
            n == ps@.len(),
            full == ps.deep_view(),
            trim_all_white(full) == out.deep_view() + trim_all_white(
                full.subrange(i as int, n as int),
            ),
        decreases n - i,
    {
        let ghost suf = full.subrange(i as int, n as int);
        proof {
            assert(suf.first() == full[i as int]);
            assert(suf.drop_first() =~= full.subrange(i as int + 1, n as int));
            assert(ps@[i as int]@ == full[i as int]);
        }
        let ghost old_out = out.deep_view();
        let t = trim_white(&ps[i]);
        out.push(t);
        proof {
            assert(out.deep_view() =~~= old_out.push(trim_white_spec(suf.first())));
            assert(old_out + (seq![trim_white_spec(suf.first())] + trim_all_white(
                suf.drop_first(),
            )) =~~= out.deep_view() + trim_all_white(suf.drop_first()));
        }
        i = i + 1;
    }
    proof {
        assert(full.subrange(i as int, n as int) =~~= Seq::<Seq<char>>::empty());
        assert(out.deep_view() + Seq::<Seq<char>>::empty() =~~= out.deep_view());
    }
    out
}

/// Variant C on the two-line blocks scraped from the Canlis page; `updated`
/// dates the records.
pub fn canlis_parse(blocks: Vec<String>, updated: String) -> (items: Vec<Item>)
    ensures
        items.deep_view() == canlis_go(blocks.deep_view(), updated@),
{
    let ghost full = blocks.deep_view();
    let mut out: Vec<Item> = Vec::new();
    let mut i: usize = 0;
    let n = blocks.len();
    proof {
        assert(full.subrange(0, n as int) =~~= full);
        assert(out.deep_view() + canlis_go(full, updated@) =~~= canlis_go(full, updated@));
    }
    while i < n
        invariant
            i <= n,
            n == blocks@.len(),
            full == blocks.deep_view(),
            updated@ == updated@,
            canlis_go(full, updated@) == out.deep_view() + canlis_go(
                full.subrange(i as int, n as int),
                updated@,
            ),
        decreases n - i,
    {
        let ghost suf = full.subrange(i as int, n as int);
        proof {
            assert(suf.first() == full[i as int]);
            assert(suf.drop_first() =~= full.subrange(i as int + 1, n as int));
            assert(blocks@[i as int]@ == full[i as int]);
        }
        let b = chars_of(blocks[i].as_str());
        if contains_lit(&b, "menu") {
            proof {
                assert(canlis_go(suf, updated@) =~~= Seq::<ItemView>::empty());
                assert(out.deep_view() + Seq::<ItemView>::empty() =~~= out.deep_view());
            }
            return out;
        }
        let lines = split_chars(&b, '\n');
        let kept = filter_alnum_exec(&lines);
        if kept.len() == 2 {
            let ghost ls = filter_alnum_lines(split_spec(suf.first(), '\n'));
            proof {
                assert(kept.deep_view() == ls);
                assert(kept@[0]@ == ls[0]);
                assert(kept@[1]@ == ls[1]);
            }
            let name = crate::text::string_from(&kept[0]);
            let raw_ings = split_chars(&kept[1], ',');
            let ings = trim_all_white_exec(&raw_ings);
            let mut price: Vec<char> = Vec::new();
            price.push('n');
            price.push('/');
            price.push('a');
            proof {
                assert(price@ =~= seq!['n', '/', 'a']);
            }
            let item = Item::new(
                name,
                crate::extract::strings_from(&ings),
                updated.clone(),
                crate::text::string_from(&price),
                crate::text::str_to_string("Canlis"),
            );
            let ghost old_out = out.deep_view();
            let ghost iv = item@;
            out.push(item);
            proof {
                assert(iv == canlis_item(ls[0], ls[1], updated@));
                assert(out.deep_view() =~~= old_out.push(iv));
                assert(old_out + (seq![iv] + canlis_go(suf.drop_first(), updated@)) =~~= out.deep_view()
                    + canlis_go(suf.drop_first(), updated@));
            }
        }
        i = i + 1;
    }
    proof {
        assert(full.subrange(i as int, n as int) =~~= Seq::<Seq<char>>::empty());
        assert(out.deep_view() + Seq::<ItemView>::empty() =~~= out.deep_view());
    }
    out
}

/// A three-line block: name, comma-separated ingredients, then the price
/// line taken verbatim.
pub open spec fn lark_item(ls: Seq<Seq<char>>, updated: Seq<char>) -> ItemView {
    ItemView {
        item_name: ls[0],
        ingredients: trim_all_white(split_spec(ls[1], ',')),
        updated: updated,
        price: ls[2],
        restaurant: "Lark"@,
    }
}

/// One group of scraped paragraph texts; a stop marker ends the group, every
/// other text counts only when it splits into exactly three lines.
pub open spec fn lark_group_go(texts: Seq<Seq<char>>, updated: Seq<char>) -> Seq<ItemView>
    decreases texts.len(),
{
    if texts.len() == 0 {
        Seq::empty()
    } else if contains_seq(texts.first(), "menu"@) || contains_seq(texts.first(), "party"@)
        || contains_seq(texts.first(), "Seattle"@) {
        Seq::empty()
    } else {
        let ls = split_spec(texts.first(), '\n');
        let rest = lark_group_go(texts.drop_first(), updated);
        if ls.len() == 3 {
            seq![lark_item(ls, updated)] + rest
        } else {
            rest
        }
    }
}

/// All groups in order; a stop marker ends only its own group.
pub open spec fn lark_go(groups: Seq<Seq<Seq<char>>>, updated: Seq<char>) -> Seq<ItemView>
    decreases groups.len(),
{
    if groups.len() == 0 {
        Seq::empty()
    } else {
        lark_group_go(groups.first(), updated) + lark_go(groups.drop_first(), updated)
    }
}

fn lark_group_parse(texts: &Vec<String>, updated: &String) -> (items: Vec<Item>)
    ensures
        items.deep_view() == lark_group_go(texts.deep_view(), updated@),
{
    let ghost full = texts.deep_view();
    let mut out: Vec<Item> = Vec::new();
    let mut i: usize = 0;
    let n = texts.len();
    proof {
        assert(full.subrange(0, n as int) =~~= full);
        assert(out.deep_view() + lark_group_go(full, updated@) =~~= lark_group_go(
            full,
            updated@,
        ));
    }
    while i < n
        invariant
            i <= n,
            n == texts@.len(),
            full == texts.deep_view(),
            lark_group_go(full, updated@) == out.deep_view() + lark_group_go(
                full.subrange(i as int, n as int),
                updated@,
            ),
        decreases n - i,
    {
        let ghost suf = full.subrange(i as int, n as int);
        proof {
            assert(suf.first() == full[i as int]);
            assert(suf.drop_first() =~= full.subrange(i as int + 1, n as int));
            assert(texts@[i as int]@ == full[i as int]);
        }
        let t = chars_of(texts[i].as_str());
        if contains_lit(&t, "menu") || contains_lit(&t, "party") || contains_lit(
            &t,
            "Seattle",
        ) {
            proof {
                assert(lark_group_go(suf, updated@) =~~= Seq::<ItemView>::empty());
                assert(out.deep_view() + Seq::<ItemView>::empty() =~~= out.deep_view());
            }
            return out;
        }
        let lines = split_chars(&t, '\n');
        if lines.len() == 3 {
            let ghost ls = split_spec(suf.first(), '\n');
            proof {
                assert(lines.deep_view() == ls);
                assert(lines@[0]@ == ls[0]);
                assert(lines@[1]@ == ls[1]);
                assert(lines@[2]@ == ls[2]);
            }
            let name = crate::text::string_from(&lines[0]);
            let raw_ings = split_chars(&lines[1], ',');
            let ings = trim_all_white_exec(&raw_ings);
            let price = crate::text::string_from(&lines[2]);
            let item = Item::new(
                name,
                crate::extract::strings_from(&ings),
                updated.clone(),
                price,
                crate::text::str_to_string("Lark"),
            );
            let ghost old_out = out.deep_view();
            let ghost iv = item@;
            out.push(item);
            proof {
                assert(iv == lark_item(ls, updated@));
                assert(out.deep_view() =~~= old_out.push(iv));
                assert(old_out + (seq![iv] + lark_group_go(suf.drop_first(), updated@))
                    =~~= out.deep_view() + lark_group_go(suf.drop_first(), updated@));
            }
        }
        i = i + 1;
    }
    proof {
        assert(full.subrange(i as int, n as int) =~~= Seq::<Seq<char>>::empty());
        assert(out.deep_view() + Seq::<ItemView>::empty() =~~= out.deep_view());
    }
    out
}

/// Variant C on the three-line blocks scraped from the Lark page, one group
/// of paragraph texts per page section; `updated` dates the records.
pub fn lark_parse(groups: Vec<Vec<String>>, updated: String) -> (items: Vec<Item>)
    ensures
        items.deep_view() == lark_go(groups.deep_view(), updated@),
{
    let ghost full = groups.deep_view();
    let mut out: Vec<Item> = Vec::new();
    let mut g: usize = 0;
    let n = groups.len();
    proof {
        assert(full.subrange(0, n as int) =~~= full);
        assert(out.deep_view() + lark_go(full, updated@) =~~= lark_go(full, updated@));
    }
    while g < n
        invariant
            g <= n,
            n == groups@.len(),
            full == groups.deep_view(),
            lark_go(full, updated@) == out.deep_view() + lark_go(
                full.subrange(g as int, n as int),
                updated@,
            ),
        decreases n - g,
    {
        let ghost suf = full.subrange(g as int, n as int);
        proof {
            assert(suf.first() == full[g as int]);
            assert(suf.drop_first() =~= full.subrange(g as int + 1, n as int));
            assert(groups@[g as int].deep_view() == full[g as int]);
        }
        let mut group_items = lark_group_parse(&groups[g], &updated);
        let ghost old_out = out.deep_view();
        let ghost add = group_items.deep_view();
        let ghost pre_len = out@.len();
        out.append(&mut group_items);
        proof {
            assert forall|k: int| 0 <= k < out@.len() implies out.deep_view()[k] == (old_out
                + add)[k] by {
                assert(out.deep_view()[k] == out@[k]@);
                if k < pre_len {
                } else {
                }
            }
            assert(out.deep_view() =~~= old_out + add);
            assert(old_out + (lark_group_go(suf.first(), updated@) + lark_go(
                suf.drop_first(),
                updated@,
            )) =~~= out.deep_view() + lark_go(suf.drop_first(), updated@));
        }
        g = g + 1;
    }
    proof {
        assert(full.subrange(g as int, n as int) =~~= Seq::<Seq<Seq<char>>>::empty());
        assert(out.deep_view() + Seq::<ItemView>::empty() =~~= out.deep_view());
    }
    out
}

} // verus!
