//! Field extraction shared by the line-oriented menu parsers.
//!
//! An entry splits at the first character that is a digit or a symbol other
//! than letters, digits, whitespace and `&`: the front is the dish name, the
//! rest its details. The details turn into ingredients by normalizing the
//! conjunction `" and "` into a comma, splitting on commas and trimming each
//! piece; a trailing run of digits on the last piece is the price.

use vstd::prelude::*;

use crate::item::{Item, ItemView};
use crate::text::{
    chars_of, copy_range, dec_spec, digits_val, find_trailing_digits, first_break_of,
    first_break_of_exec, is_ascii_digit_char, lemma_trailing_digit_start, parse_u16,
    replace_chars, replace_spec, split_chars, split_spec, string_from,
    trailing_digit_start, trim_nonalnum, trim_nonalnum_spec, trim_white, trim_white_spec,
    u16_to_chars,
};

verus! {

/// The fields read out of one entry.
pub struct Extracted {
    pub name: Seq<char>,
    pub ingredients: Seq<Seq<char>>,
    pub price: Seq<char>,
}

/// Each piece trimmed of its non-alphanumeric border characters; empty
/// leftovers disappear.
pub open spec fn trim_pieces(ps: Seq<Seq<char>>) -> Seq<Seq<char>>
    decreases ps.len(),
{
    if ps.len() == 0 {
        Seq::empty()
    } else {
        let t = trim_nonalnum_spec(ps.first());
        let rest = trim_pieces(ps.drop_first());
        if t.len() > 0 {
            seq![t] + rest
        } else {
            rest
        }
    }
}

/// What extraction makes of one entry. `None` is a dropped entry: one with no
/// split point, one whose name would be empty, or one whose price run does
/// not fit a 16-bit number.
pub open spec fn extract_fields(entry: Seq<char>) -> Option<Extracted> {
    let fb = first_break_of(entry);
    if fb == 0 || fb == entry.len() {
        None
    } else {
        let name = entry.subrange(0, fb);
        let details = entry.skip(fb);
        let pieces = trim_pieces(split_spec(replace_spec(details, " and "@, ", "@), ','));
        if pieces.len() == 0 {
            Some(Extracted { name, ingredients: Seq::empty(), price: seq!['0'] })
        } else {
            let last = pieces.last();
            let k = trailing_digit_start(last);
            if k == last.len() {
                Some(Extracted { name, ingredients: pieces, price: seq!['0'] })
            } else {
                let digits = last.skip(k);
                if digits_val(digits) > 65535 {
                    None
                } else {
                    let price = dec_spec(digits_val(digits));
                    let prefix = trim_white_spec(last.subrange(0, k));
                    let ingredients = if prefix.len() > 0 {
                        pieces.update(pieces.len() - 1, prefix)
                    } else {
                        pieces.drop_last()
                    };
                    Some(Extracted { name, ingredients, price })
                }
            }
        }
    }
}

fn trim_piece_list(ps: &Vec<Vec<char>>) -> (r: Vec<Vec<char>>)
    ensures
        r.deep_view() == trim_pieces(ps.deep_view()),
{
    let ghost full = ps.deep_view();
    let mut out: Vec<Vec<char>> = Vec::new();
    let mut i: usize = 0;
    let n = ps.len();
    proof {
        assert(full.subrange(0, n as int) =~~= full);
        assert(out.deep_view() + trim_pieces(full) =~~= trim_pieces(full));
    }
    while i < n
        invariant
            i <= n,
            n == ps@.len(),
            full == ps.deep_view(),
            trim_pieces(full) == out.deep_view() + trim_pieces(
                full.subrange(i as int, n as int),
            ),
        decreases n - i,
    {
        let ghost suf = full.subrange(i as int, n as int);
        proof {
            assert(suf.first() == full[i as int]);
            assert(suf.drop_first() =~= full.subrange(i as int + 1, n as int));
            assert(full[i as int] == ps@[i as int]@);
        }
        let t = trim_nonalnum(&ps[i]);
        if t.len() > 0 {
            let ghost old_out = out.deep_view();
            out.push(t);
            proof {
                assert(out.deep_view() =~~= old_out.push(trim_nonalnum_spec(suf.first())));
                assert(old_out + (seq![trim_nonalnum_spec(suf.first())] + trim_pieces(
                    suf.drop_first(),
                )) =~~= out.deep_view() + trim_pieces(suf.drop_first()));
            }
        }
        i = i + 1;
    }
    proof {
        assert(full.subrange(i as int, n as int) =~~= Seq::<Seq<char>>::empty());
        assert(out.deep_view() + Seq::<Seq<char>>::empty() =~~= out.deep_view());
    }
    out
}

pub fn strings_from(vs: &Vec<Vec<char>>) -> (r: Vec<String>)
    ensures
        r.deep_view() == vs.deep_view(),
{
    let mut r: Vec<String> = Vec::new();
    let mut i: usize = 0;
    while i < vs.len()
        invariant
            i <= vs@.len(),
            r@.len() == i,
            forall|k: int| 0 <= k < i ==> r@[k]@ == vs@[k]@,
        decreases vs@.len() - i,
    {
        let s = string_from(&vs[i]);
        r.push(s);
        i = i + 1;
    }
    proof {
        assert forall|k: int| 0 <= k < vs@.len() implies r.deep_view()[k] == vs.deep_view()[k] by {
            assert(r@[k]@ == vs@[k]@);
            assert(r.deep_view()[k] == r@[k]@);
            assert(vs.deep_view()[k] == vs@[k]@);
        }
        assert(r.deep_view() =~~= vs.deep_view());
    }
    r
}

/// Extracts the fields of one entry and, when the entry is admissible,
/// builds the `Item` for `restaurant` dated `updated`.
pub fn extract_entry(entry: &Vec<char>, restaurant: &str, updated: &String) -> (r: Option<
    Item,
>)
    ensures
        match extract_fields(entry@) {
            Some(e) => {
                &&& r is Some
                &&& r->0@ == (ItemView {
                    item_name: e.name,
                    ingredients: e.ingredients,
                    updated: updated@,
                    price: e.price,
                    restaurant: restaurant@,
                })
            },
            None => r is None,
        },
{
    let n = entry.len();
    let fb = first_break_of_exec(entry);
    if fb == 0 || fb == n {
        return None;
    }
    let name = copy_range(entry, 0, fb);
    let details = copy_range(entry, fb, n);
    proof {
        assert(details@ == entry@.skip(fb as int));
    }
    let pat = chars_of(" and ");
    let rep = chars_of(", ");
    proof {
        reveal_strlit(" and ");
        assert(pat@.len() > 0);
    }
    let replaced = replace_chars(&details, &pat, &rep);
    let raw_pieces = split_chars(&replaced, ',');
    let pieces = trim_piece_list(&raw_pieces);
    let ghost pieces_spec = trim_pieces(split_spec(replace_spec(entry@.skip(fb as int), " and "@, ", "@), ','));
    proof {
        assert(pieces.deep_view() == pieces_spec);
    }
    if pieces.len() == 0 {
        let mut price: Vec<char> = Vec::new();
        price.push('0');
        proof {
            assert(price@ =~= seq!['0']);
        }
        let ingredients: Vec<String> = Vec::new();
        proof {
            assert(ingredients.deep_view() =~~= Seq::<Seq<char>>::empty());
        }
        return Some(
            Item::new(
                string_from(&name),
                ingredients,
                updated.clone(),
                string_from(&price),
                crate::text::str_to_string(restaurant),
            ),
        );
    }
    let last_idx = pieces.len() - 1;
    let ghost last_spec = pieces_spec.last();
    proof {
        assert(pieces.deep_view()[last_idx as int] == pieces@[last_idx as int]@);
        assert(pieces@[last_idx as int]@ == last_spec);
    }
    let k = find_trailing_digits(&pieces[last_idx]);
    let last_len = pieces[last_idx].len();
    proof {
        lemma_trailing_digit_start(last_spec);
    }
    if k == last_len {
        let mut price: Vec<char> = Vec::new();
        price.push('0');
        proof {
            assert(price@ =~= seq!['0']);
        }
        return Some(
            Item::new(
                string_from(&name),
                strings_from(&pieces),
                updated.clone(),
                string_from(&price),
                crate::text::str_to_string(restaurant),
            ),
        );
    }
    let digits = copy_range(&pieces[last_idx], k, last_len);
    proof {
        lemma_trailing_digit_start(last_spec);
        assert(digits@ == last_spec.skip(k as int));
        assert forall|j: int| 0 <= j < digits@.len() implies is_ascii_digit_char(
            digits@[j],
        ) by {
            assert(digits@[j] == last_spec[k + j]);
        }
    }
    let val = match parse_u16(&digits) {
        None => {
            return None;
        },
        Some(v) => v,
    };
    let price = u16_to_chars(val);
    let head = copy_range(&pieces[last_idx], 0, k);
    let prefix = trim_white(&head);
    proof {
        assert(head@ == last_spec.subrange(0, k as int));
    }
    let mut pieces = pieces;
    let ghost pre = pieces.deep_view();
    pieces.pop();
    if prefix.len() > 0 {
        pieces.push(prefix);
        proof {
            assert(pieces.deep_view() =~~= pre.update(
                pre.len() - 1,
                trim_white_spec(last_spec.subrange(0, k as int)),
            ));
        }
    } else {
        proof {
            assert(pieces.deep_view() =~~= pre.drop_last());
        }
    }
    Some(
        Item::new(
            string_from(&name),
            strings_from(&pieces),
            updated.clone(),
            string_from(&price),
            crate::text::str_to_string(restaurant),
        ),
    )
}

} // verus!
