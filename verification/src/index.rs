//! The inverted token index and the query engine over it.
//!
//! Every stored record's name and ingredients are tokenized on whitespace;
//! each token keeps only its letters and digits, lowercased. The index maps
//! every such token to the records it came from, and a query unions the
//! records of its tokens. The well-formedness of the index carries the
//! completeness claim: no token of a stored record is ever missing.

use vstd::prelude::*;

use crate::item::{Item, ItemView};
use crate::text::{ascii_lower, chars_of, is_alnum_char, is_alpha_char, is_white_char};

verus! {

// ---------------------------------------------------------------------------
// Tokens
// ---------------------------------------------------------------------------

/// A word reduced to its letters and digits, ASCII-lowercased.
pub open spec fn norm_token(w: Seq<char>) -> Seq<char>
    decreases w.len(),
{
    if w.len() == 0 {
        Seq::empty()
    } else if is_alnum_char(w.first()) {
        seq![ascii_lower(w.first())] + norm_token(w.drop_first())
    } else {
        norm_token(w.drop_first())
    }
}

/// Closes the word under accumulation: an empty normalized token vanishes.
pub open spec fn close_token(acc: Seq<Seq<char>>, w: Seq<char>) -> Seq<Seq<char>> {
    if norm_token(w).len() > 0 {
        acc.push(norm_token(w))
    } else {
        acc
    }
}

pub open spec fn tokens_go(s: Seq<char>, cur: Seq<char>, acc: Seq<Seq<char>>) -> Seq<
    Seq<char>,
>
    decreases s.len(),
{
    if s.len() == 0 {
        close_token(acc, cur)
    } else if is_white_char(s.first()) {
        tokens_go(s.drop_first(), Seq::empty(), close_token(acc, cur))
    } else {
        tokens_go(s.drop_first(), cur.push(s.first()), acc)
    }
}

/// The tokens of one text: whitespace-separated words, each normalized,
/// empties discarded.
pub open spec fn text_tokens(s: Seq<char>) -> Seq<Seq<char>> {
    tokens_go(s, Seq::empty(), Seq::empty())
}

pub open spec fn ingredients_tokens(ss: Seq<Seq<char>>) -> Seq<Seq<char>>
    decreases ss.len(),
{
    if ss.len() == 0 {
        Seq::empty()
    } else {
        text_tokens(ss.first()) + ingredients_tokens(ss.drop_first())
    }
}

/// Every token a record contributes: those of its name, then those of each
/// ingredient in order.
pub open spec fn item_tokens(iv: ItemView) -> Seq<Seq<char>> {
    text_tokens(iv.item_name) + ingredients_tokens(iv.ingredients)
}

fn norm_token_exec(w: &Vec<char>) -> (r: Vec<char>)
    ensures
        r@ == norm_token(w@),
{
    let n = w.len();
    let mut out: Vec<char> = Vec::new();
    let mut i: usize = 0;
    proof {
        assert(w@.subrange(0, n as int) =~= w@);
        assert(Seq::<char>::empty() + norm_token(w@) =~= norm_token(w@));
    }
    while i < n
        invariant
            i <= n,
            n == w@.len(),
            norm_token(w@) == out@ + norm_token(w@.subrange(i as int, n as int)),
        decreases n - i,
    {
        let ghost suf = w@.subrange(i as int, n as int);
        proof {
            assert(suf.first() == w@[i as int]);
            assert(suf.drop_first() =~= w@.subrange(i as int + 1, n as int));
        }
        let c = w[i];
        if crate::text::char_is_alnum(c) {
            let ghost old_out = out@;
            out.push(crate::text::char_ascii_lower(c));
            proof {
                assert(old_out + (seq![ascii_lower(suf.first())] + norm_token(
                    suf.drop_first(),
                )) =~= out@ + norm_token(suf.drop_first()));
            }
        }
        i = i + 1;
    }
    proof {
        assert(w@.subrange(i as int, n as int) =~= Seq::<char>::empty());
        assert(out@ + Seq::<char>::empty() =~= out@);
    }
    out
}

fn tokenize_text(v: &Vec<char>) -> (r: Vec<Vec<char>>)
    ensures
        r.deep_view() == text_tokens(v@),
{
    let n = v.len();
    let mut acc: Vec<Vec<char>> = Vec::new();
    let mut cur: Vec<char> = Vec::new();
    let mut i: usize = 0;
    proof {
        assert(v@.subrange(0, n as int) =~= v@);
        assert(acc.deep_view() =~~= Seq::<Seq<char>>::empty());
    }
    while i < n
        invariant
            i <= n,
            n == v@.len(),
            tokens_go(v@.subrange(i as int, n as int), cur@, acc.deep_view()) == text_tokens(
                v@,
            ),
        decreases n - i,
    {
        let ghost suf = v@.subrange(i as int, n as int);
        proof {
            assert(suf.first() == v@[i as int]);
            assert(suf.drop_first() =~= v@.subrange(i as int + 1, n as int));
        }
        let c = v[i];
        if crate::text::char_is_white(c) {
            let t = norm_token_exec(&cur);
            let ghost old_acc = acc.deep_view();
            if t.len() > 0 {
                acc.push(t);
                proof {
                    assert(acc.deep_view() =~~= old_acc.push(norm_token(cur@)));
                    assert(acc.deep_view() =~~= close_token(old_acc, cur@));
                }
            } else {
                proof {
                    assert(acc.deep_view() =~~= close_token(old_acc, cur@));
                }
            }
            cur = Vec::new();
        } else {
            cur.push(c);
        }
        i = i + 1;
    }
    proof {
        assert(v@.subrange(i as int, n as int) =~= Seq::<char>::empty());
    }
    let t = norm_token_exec(&cur);
    let ghost old_acc = acc.deep_view();
    if t.len() > 0 {
        acc.push(t);
        proof {
            assert(acc.deep_view() =~~= old_acc.push(norm_token(cur@)));
            assert(acc.deep_view() =~~= close_token(old_acc, cur@));
        }
    } else {
        proof {
            assert(acc.deep_view() =~~= close_token(old_acc, cur@));
        }
    }
    acc
}

fn append_token_list(dst: &mut Vec<Vec<char>>, src: &mut Vec<Vec<char>>)
    ensures
        final(dst).deep_view() == old(dst).deep_view() + old(src).deep_view(),
{
    let ghost d0 = dst.deep_view();
    let ghost s0 = src.deep_view();
    let ghost pre_len = dst@.len();
    dst.append(src);
    proof {
        assert forall|k: int| 0 <= k < dst@.len() implies dst.deep_view()[k] == (d0 + s0)[k]
            by {
            assert(dst.deep_view()[k] == dst@[k]@);
            if k < pre_len {
                assert(d0[k] == old(dst)@[k]@);
            } else {
                assert(s0[k - pre_len] == old(src)@[k - pre_len]@);
            }
        }
        assert(dst.deep_view() =~~= d0 + s0);
    }
}

/// Every token of one record, computed.
pub fn item_tokens_exec(item: &Item) -> (r: Vec<Vec<char>>)
    ensures
        r.deep_view() == item_tokens(item@),
{
    let name_chars = chars_of(item.item_name().as_str());
    let mut out = tokenize_text(&name_chars);
    let ings = item.ingredients();
    let ghost ing_views = item@.ingredients;
    let n = ings.len();
    let mut i: usize = 0;
    proof {
        assert(ing_views.subrange(0, n as int) =~~= ing_views);
    }
    while i < n
        invariant
            i <= n,
            n == ing_views.len(),
            ing_views == item@.ingredients,
            ings.deep_view() == ing_views,
            ings@.len() == n,
            item_tokens(item@) == out.deep_view() + ingredients_tokens(
                ing_views.subrange(i as int, n as int),
            ),
        decreases n - i,
    {
        let ghost suf = ing_views.subrange(i as int, n as int);
        proof {
            assert(suf.first() == ing_views[i as int]);
            assert(suf.drop_first() =~= ing_views.subrange(i as int + 1, n as int));
            assert(ings.deep_view()[i as int] == ings@[i as int]@);
            assert(ings@[i as int]@ == ing_views[i as int]);
        }
        let ing_chars = chars_of(ings[i].as_str());
        let mut toks = tokenize_text(&ing_chars);
        let ghost old_out = out.deep_view();
        let ghost added = toks.deep_view();
        append_token_list(&mut out, &mut toks);
        proof {
            assert(old_out + (text_tokens(suf.first()) + ingredients_tokens(
                suf.drop_first(),
            )) =~~= out.deep_view() + ingredients_tokens(suf.drop_first()));
        }
        i = i + 1;
    }
    proof {
        assert(ing_views.subrange(i as int, n as int) =~~= Seq::<Seq<char>>::empty());
        assert(out.deep_view() + Seq::<Seq<char>>::empty() =~~= out.deep_view());
    }
    out
}

// ---------------------------------------------------------------------------
// The inverted index
// ---------------------------------------------------------------------------

/// The mathematical content of the index: a record arena and parallel lists
/// of tokens and of the record positions each token reaches.
pub struct IndexView {
    pub items: Seq<ItemView>,
    pub tokens: Seq<Seq<char>>,
    pub buckets: Seq<Seq<usize>>,
}

/// Token `t` reaches record position `id` through some bucket.
pub open spec fn maps_to(
    tokens: Seq<Seq<char>>,
    buckets: Seq<Seq<usize>>,
    t: Seq<char>,
    id: usize,
) -> bool {
    exists|b: int| 0 <= b < tokens.len() && tokens[b] == t && #[trigger] buckets[b].contains(
        id,
    )
}

pub open spec fn distinct_tokens(tokens: Seq<Seq<char>>) -> bool {
    forall|b1: int, b2: int|
        #![trigger tokens[b1], tokens[b2]]
        0 <= b1 < b2 < tokens.len() ==> tokens[b1] != tokens[b2]
}

/// A bucket entry points into the arena, at a record that really carries the
/// bucket's token.
pub open spec fn entry_ok(
    items: Seq<ItemView>,
    tokens: Seq<Seq<char>>,
    buckets: Seq<Seq<usize>>,
    b: int,
    p: int,
) -> bool {
    buckets[b][p] < items.len() && item_tokens(items[buckets[b][p] as int]).contains(
        tokens[b],
    )
}

pub open spec fn entries_ok(
    items: Seq<ItemView>,
    tokens: Seq<Seq<char>>,
    buckets: Seq<Seq<usize>>,
) -> bool {
    forall|b: int, p: int|
        0 <= b < buckets.len() && 0 <= p < buckets[b].len() ==> #[trigger] entry_ok(
            items,
            tokens,
            buckets,
            b,
            p,
        )
}

/// Every token of every record before position `m` reaches its record.
pub open spec fn complete_upto(
    items: Seq<ItemView>,
    tokens: Seq<Seq<char>>,
    buckets: Seq<Seq<usize>>,
    m: int,
) -> bool {
    forall|id: int, ti: int|
        0 <= id < m && 0 <= ti < item_tokens(items[id]).len() ==> maps_to(
            tokens,
            buckets,
            #[trigger] item_tokens(items[id])[ti],
            id as usize,
        )
}

pub open spec fn index_wf(
    items: Seq<ItemView>,
    tokens: Seq<Seq<char>>,
    buckets: Seq<Seq<usize>>,
) -> bool {
    &&& tokens.len() == buckets.len()
    &&& distinct_tokens(tokens)
    &&& entries_ok(items, tokens, buckets)
    &&& complete_upto(items, tokens, buckets, items.len() as int)
}

/// The inverted token index over a fixed record arena.
pub struct Index {
    items: Vec<Item>,
    tokens: Vec<Vec<char>>,
    buckets: Vec<Vec<usize>>,
}

impl View for Index {
    type V = IndexView;

    closed spec fn view(&self) -> IndexView {
        IndexView {
            items: self.items.deep_view(),
            tokens: self.tokens.deep_view(),
            buckets: self.buckets.deep_view(),
        }
    }
}

impl Index {
    pub open spec fn wf(&self) -> bool {
        index_wf(self@.items, self@.tokens, self@.buckets)
    }
}

/// Either the pair stood in the old index, or it is the one just added.
pub open spec fn pair_src(
    tokens0: Seq<Seq<char>>,
    buckets0: Seq<Seq<usize>>,
    tb: Seq<char>,
    idp: usize,
    t: Seq<char>,
    id: usize,
) -> bool {
    maps_to(tokens0, buckets0, tb, idp) || (tb == t && idp == id)
}

fn add_pair(toks: &mut Vec<Vec<char>>, bks: &mut Vec<Vec<usize>>, t: Vec<char>, id: usize)
    requires
        old(toks).deep_view().len() == old(bks).deep_view().len(),
        distinct_tokens(old(toks).deep_view()),
    ensures
        final(toks).deep_view().len() == final(bks).deep_view().len(),
        distinct_tokens(final(toks).deep_view()),
        maps_to(final(toks).deep_view(), final(bks).deep_view(), t@, id),
        forall|t0: Seq<char>, id0: usize|
            maps_to(old(toks).deep_view(), old(bks).deep_view(), t0, id0) ==> maps_to(
                final(toks).deep_view(),
                final(bks).deep_view(),
                t0,
                id0,
            ),
        forall|b: int, p: int|
            #![trigger final(bks).deep_view()[b][p]]
            0 <= b < final(bks).deep_view().len() && 0 <= p < final(bks).deep_view()[b].len()
                ==> pair_src(
                old(toks).deep_view(),
                old(bks).deep_view(),
                final(toks).deep_view()[b],
                final(bks).deep_view()[b][p],
                t@,
                id,
            ),
{
    let ghost t0s = toks.deep_view();
    let ghost b0s = bks.deep_view();
    let n = toks.len();
    let mut b: usize = 0;
    proof {
        assert(bks@.len() == b0s.len());
        assert(toks@.len() == t0s.len());
    }
    while b < n
        invariant
            b <= n,
            n == toks@.len(),
            n == bks@.len(),
            toks@ == old(toks)@,
            bks@ == old(bks)@,
            t0s == toks.deep_view(),
            b0s == bks.deep_view(),
            t0s.len() == n,
            b0s.len() == n,
            distinct_tokens(t0s),
            forall|k: int| 0 <= k < b ==> t0s[k] != t@,
        decreases n - b,
    {
        proof {
            assert(toks.deep_view()[b as int] == toks@[b as int]@);
        }
        if crate::text::eq_chars(&toks[b], &t) {
            let ghost shallow = bks@;
            proof {
                assert(shallow[b as int]@ == b0s[b as int]);
            }
            let mut col = bks.remove(b);
            proof {
                assert(col@ == shallow[b as int]@);
            }
            col.push(id);
            bks.insert(b, col);
            proof {
                assert(bks@ == shallow.remove(b as int).insert(b as int, col));
                assert forall|k: int| 0 <= k < bks.deep_view().len() implies bks.deep_view()[k]
                    == b0s.update(b as int, b0s[b as int].push(id))[k] by {
                    assert(bks.deep_view()[k] == bks@[k]@);
                    if k < b {
                        assert(bks@[k] == shallow[k]);
                        assert(shallow[k]@ == b0s[k]);
                    } else if k == b {
                        assert(bks@[k] == col);
                    } else {
                        assert(bks@[k] == shallow.remove(b as int)[k - 1]);
                        assert(shallow.remove(b as int)[k - 1] == shallow[k]);
                        assert(shallow[k]@ == b0s[k]);
                    }
                }
                assert(bks.deep_view() =~~= b0s.update(b as int, b0s[b as int].push(id)));
                let b1s = bks.deep_view();
                // the new pair is reachable in its bucket
                assert(b1s[b as int][b0s[b as int].len() as int] == id);
                assert(b1s[b as int].contains(id));
                assert(maps_to(t0s, b1s, t@, id));
                // every old pair still stands
                assert forall|tt: Seq<char>, ii: usize|
                    maps_to(t0s, b0s, tt, ii) implies maps_to(t0s, b1s, tt, ii) by {
                    let bb = choose|bb: int|
                        0 <= bb < t0s.len() && t0s[bb] == tt && #[trigger] b0s[bb].contains(
                            ii,
                        );
                    if bb == b {
                        let pp = choose|pp: int|
                            0 <= pp < b0s[bb].len() && b0s[bb][pp] == ii;
                        assert(b1s[bb][pp] == ii);
                        assert(b1s[bb].contains(ii));
                    } else {
                        assert(b1s[bb] == b0s[bb]);
                    }
                }
                // every new pair has a source
                assert forall|bb: int, pp: int|
                    0 <= bb < b1s.len() && 0 <= pp < b1s[bb].len() implies pair_src(
                    t0s,
                    b0s,
                    t0s[bb],
                    b1s[bb][pp],
                    t@,
                    id,
                ) by {
                    if bb == b {
                        if pp < b0s[bb].len() {
                            assert(b0s[bb][pp] == b1s[bb][pp]);
                            assert(b0s[bb].contains(b1s[bb][pp]));
                            assert(maps_to(t0s, b0s, t0s[bb], b1s[bb][pp]));
                        } else {
                            assert(b1s[bb][pp] == id);
                            assert(t0s[bb] == t@);
                        }
                    } else {
                        assert(b1s[bb] == b0s[bb]);
                        assert(b0s[bb].contains(b1s[bb][pp]));
                        assert(maps_to(t0s, b0s, t0s[bb], b1s[bb][pp]));
                    }
                }
            }
            return ;
        }
        b = b + 1;
    }
    let ghost tv = t@;
    toks.push(t);
    let mut col: Vec<usize> = Vec::new();
    col.push(id);
    bks.push(col);
    proof {
        assert forall|k: int| 0 <= k < toks.deep_view().len() implies toks.deep_view()[k]
            == t0s.push(tv)[k] by {
            assert(toks.deep_view()[k] == toks@[k]@);
            if k < n {
                assert(toks@[k] == old(toks)@[k]);
            }
        }
        assert(toks.deep_view() =~~= t0s.push(tv));
        assert forall|k: int| 0 <= k < bks.deep_view().len() implies bks.deep_view()[k]
            == b0s.push(seq![id])[k] by {
            assert(bks.deep_view()[k] == bks@[k]@);
            if k < n {
                assert(bks@[k] == old(bks)@[k]);
            } else {
                assert(bks@[k]@ =~= seq![id]);
            }
        }
        assert(bks.deep_view() =~~= b0s.push(seq![id]));
        let t1s = toks.deep_view();
        let b1s = bks.deep_view();
        assert(t1s[n as int] == tv);
        assert(b1s[n as int][0] == id);
        assert(b1s[n as int].contains(id));
        assert(maps_to(t1s, b1s, tv, id));
        assert forall|b1: int, b2: int|
            #![trigger t1s[b1], t1s[b2]]
            0 <= b1 < b2 < t1s.len() implies t1s[b1] != t1s[b2] by {
            if b2 == n {
                assert(t1s[b1] == t0s[b1]);
                assert(t0s[b1] != tv);
            }
        }
        assert forall|tt: Seq<char>, ii: usize|
            maps_to(t0s, b0s, tt, ii) implies maps_to(t1s, b1s, tt, ii) by {
            let bb = choose|bb: int|
                0 <= bb < t0s.len() && t0s[bb] == tt && #[trigger] b0s[bb].contains(ii);
            assert(t1s[bb] == t0s[bb]);
            assert(b1s[bb] == b0s[bb]);
        }
        assert forall|bb: int, pp: int|
            0 <= bb < b1s.len() && 0 <= pp < b1s[bb].len() implies pair_src(
            t0s,
            b0s,
            t1s[bb],
            b1s[bb][pp],
            tv,
            id,
        ) by {
            if bb < n {
                assert(b1s[bb] == b0s[bb]);
                assert(t1s[bb] == t0s[bb]);
                assert(b0s[bb].contains(b1s[bb][pp]));
                assert(maps_to(t0s, b0s, t0s[bb], b1s[bb][pp]));
            } else {
                assert(b1s[bb][pp] == id);
                assert(t1s[bb] == tv);
            }
        }
    }
}

/// Builds the inverted index over the given records: every token of every
/// record's name and ingredients reaches that record.
pub fn make_map(items: Vec<Item>) -> (ix: Index)
    ensures
        ix.wf(),
        ix@.items == items.deep_view(),
{
    let ghost ivs = items.deep_view();
    let mut toks: Vec<Vec<char>> = Vec::new();
    let mut bks: Vec<Vec<usize>> = Vec::new();
    let n = items.len();
    let mut id: usize = 0;
    while id < n
        invariant
            id <= n,
            n == items@.len(),
            ivs == items.deep_view(),
            toks.deep_view().len() == bks.deep_view().len(),
            distinct_tokens(toks.deep_view()),
            entries_ok(ivs, toks.deep_view(), bks.deep_view()),
            complete_upto(ivs, toks.deep_view(), bks.deep_view(), id as int),
        decreases n - id,
    {
        proof {
            assert(items@[id as int]@ == ivs[id as int]);
        }
        let item_toks = item_tokens_exec(&items[id]);
        let ghost tseq = item_tokens(ivs[id as int]);
        let m = item_toks.len();
        let mut ti: usize = 0;
        while ti < m
            invariant
                ti <= m,
                m == item_toks@.len(),
                item_toks.deep_view() == tseq,
                tseq == item_tokens(ivs[id as int]),
                id < n,
                n == items@.len(),
                ivs == items.deep_view(),
                toks.deep_view().len() == bks.deep_view().len(),
                distinct_tokens(toks.deep_view()),
                entries_ok(ivs, toks.deep_view(), bks.deep_view()),
                complete_upto(ivs, toks.deep_view(), bks.deep_view(), id as int),
                forall|tj: int|
                    0 <= tj < ti ==> maps_to(
                        toks.deep_view(),
                        bks.deep_view(),
                        #[trigger] tseq[tj],
                        id,
                    ),
            decreases m - ti,
        {
            proof {
                assert(item_toks@[ti as int]@ == tseq[ti as int]);
            }
            let t = crate::text::copy_range(&item_toks[ti], 0, item_toks[ti].len());
            let ghost tv = t@;
            proof {
                assert(tv =~= item_toks@[ti as int]@);
                assert(tv == tseq[ti as int]);
            }
            let ghost t0s = toks.deep_view();
            let ghost b0s = bks.deep_view();
            add_pair(&mut toks, &mut bks, t, id);
            proof {
                let t1s = toks.deep_view();
                let b1s = bks.deep_view();
                // bucket entries still point at records that carry their token
                assert forall|b: int, p: int|
                    0 <= b < b1s.len() && 0 <= p < b1s[b].len() implies #[trigger] entry_ok(
                    ivs,
                    t1s,
                    b1s,
                    b,
                    p,
                ) by {
                    assert(pair_src(t0s, b0s, t1s[b], b1s[b][p], tseq[ti as int], id));
                    if maps_to(t0s, b0s, t1s[b], b1s[b][p]) {
                        let b0 = choose|b0: int|
                            0 <= b0 < t0s.len() && t0s[b0] == t1s[b] && #[trigger] b0s[b0].contains(
                                b1s[b][p],
                            );
                        let p0 = choose|p0: int|
                            0 <= p0 < b0s[b0].len() && b0s[b0][p0] == b1s[b][p];
                        assert(entry_ok(ivs, t0s, b0s, b0, p0));
                    } else {
                        assert(t1s[b] == tseq[ti as int] && b1s[b][p] == id);
                        assert(tseq.contains(tseq[ti as int]));
                        assert(item_tokens(ivs[id as int]).contains(t1s[b]));
                    }
                }
                // everything indexed before is still indexed
                assert forall|id2: int, ti2: int|
                    0 <= id2 < id && 0 <= ti2 < item_tokens(ivs[id2]).len() implies maps_to(
                    t1s,
                    b1s,
                    #[trigger] item_tokens(ivs[id2])[ti2],
                    id2 as usize,
                ) by {
                    assert(maps_to(t0s, b0s, item_tokens(ivs[id2])[ti2], id2 as usize));
                }
                assert forall|tj: int| 0 <= tj < ti + 1 implies maps_to(
                    t1s,
                    b1s,
                    #[trigger] tseq[tj],
                    id,
                ) by {
                    if tj < ti {
                        assert(maps_to(t0s, b0s, tseq[tj], id));
                    }
                }
            }
            ti = ti + 1;
        }
        proof {
            assert forall|id2: int, ti2: int|
                0 <= id2 < id + 1 && 0 <= ti2 < item_tokens(ivs[id2]).len() implies maps_to(
                toks.deep_view(),
                bks.deep_view(),
                #[trigger] item_tokens(ivs[id2])[ti2],
                id2 as usize,
            ) by {
                if id2 == id {
                    assert(tseq[ti2] == item_tokens(ivs[id2])[ti2]);
                    assert(maps_to(toks.deep_view(), bks.deep_view(), tseq[ti2], id));
                }
            }
        }
        id = id + 1;
    }
    let ix = Index { items, tokens: toks, buckets: bks };
    proof {
        assert(ix@.items == ivs);
        assert(ix.wf());
    }
    ix
}

/// The index over everything a store holds.
pub fn get_map(store: &crate::store::Store) -> (ix: Index)
    ensures
        ix.wf(),
        ix@.items == store@,
{
    make_map(store.to_vec())
}

// ---------------------------------------------------------------------------
// The query engine
// ---------------------------------------------------------------------------

/// Query text keeps only letters and whitespace.
pub open spec fn query_keeps(c: char) -> bool {
    is_alpha_char(c) || is_white_char(c)
}

pub open spec fn query_filter(q: Seq<char>) -> Seq<char>
    decreases q.len(),
{
    if q.len() == 0 {
        Seq::empty()
    } else if query_keeps(q.first()) {
        seq![q.first()] + query_filter(q.drop_first())
    } else {
        query_filter(q.drop_first())
    }
}

pub open spec fn qsplit_go(s: Seq<char>, cur: Seq<char>, acc: Seq<Seq<char>>) -> Seq<
    Seq<char>,
>
    decreases s.len(),
{
    if s.len() == 0 {
        if cur.len() > 0 {
            acc.push(cur)
        } else {
            acc
        }
    } else if is_white_char(s.first()) {
        qsplit_go(
            s.drop_first(),
            Seq::empty(),
            if cur.len() > 0 {
                acc.push(cur)
            } else {
                acc
            },
        )
    } else {
        qsplit_go(s.drop_first(), cur.push(s.first()), acc)
    }
}

/// The tokens of a query: its letters-and-whitespace residue, split on
/// whitespace, empty pieces discarded, nothing lowercased.
pub open spec fn query_tokens(q: Seq<char>) -> Seq<Seq<char>> {
    qsplit_go(query_filter(q), Seq::empty(), Seq::empty())
}

/// Some query token occurs among the record's tokens.
pub open spec fn item_matches(iv: ItemView, qts: Seq<Seq<char>>) -> bool {
    exists|t: Seq<char>| #[trigger] qts.contains(t) && item_tokens(iv).contains(t)
}

pub open spec fn id_ok(x: IndexView, qts: Seq<Seq<char>>, id: usize) -> bool {
    id < x.items.len() && item_matches(x.items[id as int], qts)
}

/// The record is one of the arena's and matches the query.
pub open spec fn result_ok(x: IndexView, qts: Seq<Seq<char>>, iv: ItemView) -> bool {
    exists|id: int|
        0 <= id < x.items.len() && #[trigger] x.items[id] == iv && item_matches(
            x.items[id],
            qts,
        )
}

proof fn lemma_filter_white(q: Seq<char>)
    requires
        forall|i: int| 0 <= i < q.len() ==> !is_alpha_char(#[trigger] q[i]),
    ensures
        forall|i: int|
            0 <= i < query_filter(q).len() ==> is_white_char(#[trigger] query_filter(q)[i]),
    decreases q.len(),
{
    if q.len() > 0 {
        assert forall|i: int| 0 <= i < q.drop_first().len() implies !is_alpha_char(
            #[trigger] q.drop_first()[i],
        ) by {
            assert(q.drop_first()[i] == q[i + 1]);
        }
        lemma_filter_white(q.drop_first());
        if query_keeps(q.first()) {
            assert forall|i: int| 0 <= i < query_filter(q).len() implies is_white_char(
                #[trigger] query_filter(q)[i],
            ) by {
                if i == 0 {
                    assert(query_filter(q)[0] == q.first());
                } else {
                    assert(query_filter(q)[i] == query_filter(q.drop_first())[i - 1]);
                }
            }
        } else {
            assert forall|i: int| 0 <= i < query_filter(q).len() implies is_white_char(
                #[trigger] query_filter(q)[i],
            ) by {
                assert(query_filter(q)[i] == query_filter(q.drop_first())[i]);
            }
        }
    }
}

proof fn lemma_qsplit_white(s: Seq<char>, acc: Seq<Seq<char>>)
    requires
        forall|i: int| 0 <= i < s.len() ==> is_white_char(#[trigger] s[i]),
    ensures
        qsplit_go(s, Seq::empty(), acc) == acc,
    decreases s.len(),
{
    if s.len() > 0 {
        assert(is_white_char(s.first()));
        assert forall|i: int| 0 <= i < s.drop_first().len() implies is_white_char(
            #[trigger] s.drop_first()[i],
        ) by {
            assert(s.drop_first()[i] == s[i + 1]);
        }
        lemma_qsplit_white(s.drop_first(), acc);
    }
}

/// A query without a letter has no tokens.
pub proof fn query_without_letters_is_empty(q: Seq<char>)
    requires
        forall|i: int| 0 <= i < q.len() ==> !is_alpha_char(#[trigger] q[i]),
    ensures
        query_tokens(q).len() == 0,
{
    lemma_filter_white(q);
    lemma_qsplit_white(query_filter(q), Seq::empty());
}

proof fn lemma_filter_keeps_all(t: Seq<char>)
    requires
        forall|i: int| 0 <= i < t.len() ==> query_keeps(#[trigger] t[i]),
    ensures
        query_filter(t) == t,
    decreases t.len(),
{
    if t.len() > 0 {
        assert(query_keeps(t[0]));
        assert forall|i: int| 0 <= i < t.drop_first().len() implies query_keeps(
            #[trigger] t.drop_first()[i],
        ) by {
            assert(t.drop_first()[i] == t[i + 1]);
        }
        lemma_filter_keeps_all(t.drop_first());
        assert(seq![t.first()] + t.drop_first() =~= t);
    } else {
        assert(query_filter(t) =~= t);
    }
}

proof fn lemma_qsplit_single(s: Seq<char>, cur: Seq<char>, acc: Seq<Seq<char>>)
    requires
        forall|i: int| 0 <= i < s.len() ==> !is_white_char(#[trigger] s[i]),
    ensures
        qsplit_go(s, cur, acc) == if cur.len() + s.len() > 0 {
            acc.push(cur + s)
        } else {
            acc
        },
    decreases s.len(),
{
    if s.len() == 0 {
        assert(cur + s =~= cur);
    } else {
        assert(!is_white_char(s[0]));
        assert forall|i: int| 0 <= i < s.drop_first().len() implies !is_white_char(
            #[trigger] s.drop_first()[i],
        ) by {
            assert(s.drop_first()[i] == s[i + 1]);
        }
        lemma_qsplit_single(s.drop_first(), cur.push(s.first()), acc);
        assert(cur.push(s.first()) + s.drop_first() =~= cur + s);
    }
}

/// The index is complete for every token it derives: a token made of letters
/// alone, queried verbatim, is its own single query token, so the query
/// engine's contract then guarantees that every stored record carrying the
/// token stands in the result.
pub proof fn letter_token_queries_itself(t: Seq<char>)
    requires
        t.len() > 0,
        forall|i: int|
            0 <= i < t.len() ==> is_alpha_char(#[trigger] t[i]) && !is_white_char(t[i]),
    ensures
        query_tokens(t) == seq![t],
{
    lemma_filter_keeps_all(t);
    lemma_qsplit_single(t, Seq::empty(), Seq::empty());
    assert(Seq::<char>::empty() + t =~= t);
    assert(Seq::<Seq<char>>::empty().push(t) =~= seq![t]);
}

fn query_filter_exec(v: &Vec<char>) -> (r: Vec<char>)
    ensures
        r@ == query_filter(v@),
{
    let n = v.len();
    let mut out: Vec<char> = Vec::new();
    let mut i: usize = 0;
    proof {
        assert(v@.subrange(0, n as int) =~= v@);
        assert(Seq::<char>::empty() + query_filter(v@) =~= query_filter(v@));
    }
    while i < n
        invariant
            i <= n,
            n == v@.len(),
            query_filter(v@) == out@ + query_filter(v@.subrange(i as int, n as int)),
        decreases n - i,
    {
        let ghost suf = v@.subrange(i as int, n as int);
        proof {
            assert(suf.first() == v@[i as int]);
            assert(suf.drop_first() =~= v@.subrange(i as int + 1, n as int));
        }
        let c = v[i];
        if crate::text::char_is_alpha(c) || crate::text::char_is_white(c) {
            let ghost old_out = out@;
            out.push(c);
            proof {
                assert(old_out + (seq![suf.first()] + query_filter(suf.drop_first())) =~= out@
                    + query_filter(suf.drop_first()));
            }
        }
        i = i + 1;
    }
    proof {
        assert(v@.subrange(i as int, n as int) =~= Seq::<char>::empty());
        assert(out@ + Seq::<char>::empty() =~= out@);
    }
    out
}

fn qsplit_exec(v: &Vec<char>) -> (r: Vec<Vec<char>>)
    ensures
        r.deep_view() == qsplit_go(v@, Seq::empty(), Seq::empty()),
{
    let n = v.len();
    let mut acc: Vec<Vec<char>> = Vec::new();
    let mut cur: Vec<char> = Vec::new();
    let mut i: usize = 0;
    proof {
        assert(v@.subrange(0, n as int) =~= v@);
        assert(acc.deep_view() =~~= Seq::<Seq<char>>::empty());
    }
    while i < n
        invariant
            i <= n,
            n == v@.len(),
            qsplit_go(v@.subrange(i as int, n as int), cur@, acc.deep_view()) == qsplit_go(
                v@,
                Seq::empty(),
                Seq::empty(),
            ),
        decreases n - i,
    {
        let ghost suf = v@.subrange(i as int, n as int);
        proof {
            assert(suf.first() == v@[i as int]);
            assert(suf.drop_first() =~= v@.subrange(i as int + 1, n as int));
        }
        let c = v[i];
        if crate::text::char_is_white(c) {
            let ghost old_acc = acc.deep_view();
            let ghost old_cur = cur@;
            if cur.len() > 0 {
                acc.push(cur);
                cur = Vec::new();
                proof {
                    assert(acc.deep_view() =~~= old_acc.push(old_cur));
                }
            } else {
                proof {
                    assert(cur@ =~= Seq::<char>::empty());
                }
            }
        } else {
            cur.push(c);
        }
        i = i + 1;
    }
    proof {
        assert(v@.subrange(i as int, n as int) =~= Seq::<char>::empty());
    }
    let ghost old_acc = acc.deep_view();
    let ghost old_cur = cur@;
    if cur.len() > 0 {
        acc.push(cur);
        proof {
            assert(acc.deep_view() =~~= old_acc.push(old_cur));
        }
    }
    acc
}

fn contains_id(v: &Vec<usize>, x: usize) -> (r: bool)
    ensures
        r == v@.contains(x),
{
    let n = v.len();
    let mut i: usize = 0;
    while i < n
        invariant
            i <= n,
            n == v@.len(),
            forall|k: int| 0 <= k < i ==> v@[k] != x,
        decreases n - i,
    {
        if v[i] == x {
            return true;
        }
        i = i + 1;
    }
    false
}

fn union_token(ix: &Index, qt: &Vec<char>, ids: &mut Vec<usize>, Ghost(qts): Ghost<
    Seq<Seq<char>>,
>)
    requires
        ix.wf(),
        qts.contains(qt@),
        forall|k: int| 0 <= k < old(ids)@.len() ==> id_ok(ix@, qts, #[trigger] old(ids)@[k]),
        forall|k1: int, k2: int|
            #![trigger old(ids)@[k1], old(ids)@[k2]]
            0 <= k1 < k2 < old(ids)@.len() ==> old(ids)@[k1] != old(ids)@[k2],
    ensures
        forall|k: int| 0 <= k < final(ids)@.len() ==> id_ok(ix@, qts, #[trigger] final(ids)@[k]),
        forall|k1: int, k2: int|
            #![trigger final(ids)@[k1], final(ids)@[k2]]
            0 <= k1 < k2 < final(ids)@.len() ==> final(ids)@[k1] != final(ids)@[k2],
        forall|id: usize| old(ids)@.contains(id) ==> final(ids)@.contains(id),
        forall|id: int|
            0 <= id < ix@.items.len() && item_tokens(#[trigger] ix@.items[id]).contains(qt@)
                ==> final(ids)@.contains(id as usize),
{
    let ghost x = ix@;
    let ghost pre_ids = ids@;
    let nb = ix.tokens.len();
    let mut b: usize = 0;
    while b < nb
        invariant
            b <= nb,
            nb == ix.tokens@.len(),
            ix.wf(),
            x == ix@,
            qts.contains(qt@),
            ids@ == pre_ids,
            pre_ids == old(ids)@,
            forall|k: int| 0 <= k < ids@.len() ==> id_ok(x, qts, #[trigger] ids@[k]),
            forall|k1: int, k2: int|
                #![trigger ids@[k1], ids@[k2]]
                0 <= k1 < k2 < ids@.len() ==> ids@[k1] != ids@[k2],
            forall|bb: int| 0 <= bb < b ==> x.tokens[bb] != qt@,
        decreases nb - b,
    {
        proof {
            assert(ix.tokens.deep_view()[b as int] == ix.tokens@[b as int]@);
            assert(x.tokens[b as int] == ix.tokens@[b as int]@);
        }
        if crate::text::eq_chars(&ix.tokens[b], qt) {
            // the single bucket of this token: union it into the ids
            let bucket = &ix.buckets[b];
            proof {
                assert(ix.buckets.deep_view()[b as int] == ix.buckets@[b as int]@);
                assert(x.buckets[b as int] == bucket@);
            }
            let np = bucket.len();
            let mut p: usize = 0;
            while p < np
                invariant
                    p <= np,
                    np == bucket@.len(),
                    ix.wf(),
                    x == ix@,
                    qts.contains(qt@),
                    b < x.buckets.len(),
                    b < x.tokens.len(),
                    x.tokens[b as int] == qt@,
                    bucket@ == x.buckets[b as int],
                    pre_ids == old(ids)@,
                    forall|k: int| 0 <= k < ids@.len() ==> id_ok(x, qts, #[trigger] ids@[k]),
                    forall|k1: int, k2: int|
                        #![trigger ids@[k1], ids@[k2]]
                        0 <= k1 < k2 < ids@.len() ==> ids@[k1] != ids@[k2],
                    forall|pp: int| 0 <= pp < p ==> ids@.contains(#[trigger] bucket@[pp]),
                    forall|id: usize| pre_ids.contains(id) ==> ids@.contains(id),
                decreases np - p,
            {
                let cand = bucket[p];
                proof {
                    assert(entry_ok(x.items, x.tokens, x.buckets, b as int, p as int));
                    assert(x.buckets[b as int][p as int] == cand);
                    assert(cand < x.items.len());
                    assert(item_tokens(x.items[cand as int]).contains(x.tokens[b as int]));
                    assert(item_matches(x.items[cand as int], qts));
                }
                if !contains_id(&ids, cand) {
                    let ghost old_ids = ids@;
                    ids.push(cand);
                    proof {
                        assert forall|id: usize| old_ids.contains(id) implies ids@.contains(
                            id,
                        ) by {
                            let w = choose|w: int| 0 <= w < old_ids.len() && old_ids[w] == id;
                            assert(ids@[w] == id);
                        }
                        assert forall|pp: int| 0 <= pp < p + 1 implies ids@.contains(
                            #[trigger] bucket@[pp],
                        ) by {
                            if pp < p {
                                assert(old_ids.contains(bucket@[pp]));
                            } else {
                                assert(ids@[ids@.len() - 1] == cand);
                            }
                        }
                        assert forall|id: usize| pre_ids.contains(id) implies ids@.contains(
                            id,
                        ) by {
                            assert(old_ids.contains(id));
                        }
                    }
                } else {
                    proof {
                        assert forall|pp: int| 0 <= pp < p + 1 implies ids@.contains(
                            #[trigger] bucket@[pp],
                        ) by {}
                    }
                }
                p = p + 1;
            }
            proof {
                assert forall|id: int|
                    0 <= id < x.items.len() && item_tokens(#[trigger] x.items[id]).contains(
                        qt@,
                    ) implies ids@.contains(id as usize) by {
                    let toks_of = item_tokens(x.items[id]);
                    let ti = choose|ti: int| 0 <= ti < toks_of.len() && toks_of[ti] == qt@;
                    assert(complete_upto(x.items, x.tokens, x.buckets, x.items.len() as int));
                    assert(maps_to(x.tokens, x.buckets, toks_of[ti], id as usize));
                    let b0 = choose|b0: int|
                        0 <= b0 < x.tokens.len() && x.tokens[b0] == qt@
                            && #[trigger] x.buckets[b0].contains(id as usize);
                    assert(b0 == b as int);
                    let p0 = choose|p0: int|
                        0 <= p0 < x.buckets[b0].len() && x.buckets[b0][p0] == id as usize;
                    assert(bucket@[p0] == id as usize);
                    assert(ids@.contains(bucket@[p0]));
                }
            }
            return ;
        }
        b = b + 1;
    }
    proof {
        assert forall|id: int|
            0 <= id < x.items.len() && item_tokens(#[trigger] x.items[id]).contains(qt@)
                implies ids@.contains(id as usize) by {
            let toks_of = item_tokens(x.items[id]);
            let ti = choose|ti: int| 0 <= ti < toks_of.len() && toks_of[ti] == qt@;
            assert(maps_to(x.tokens, x.buckets, toks_of[ti], id as usize));
            let b0 = choose|b0: int|
                0 <= b0 < x.tokens.len() && x.tokens[b0] == qt@ && #[trigger] x.buckets[b0].contains(
                    id as usize,
                );
            assert(false);
        }
    }
}

/// Answers a keyword lookup: the records reached by any token of the query,
/// each at most once. A query without letters, or with no match, gives an
/// empty result, never a failure.
pub fn query(input: String, ix: &Index) -> (r: Vec<Item>)
    requires
        ix.wf(),
    ensures
        forall|k: int|
            0 <= k < r.deep_view().len() ==> result_ok(
                ix@,
                query_tokens(input@),
                #[trigger] r.deep_view()[k],
            ),
        forall|t: Seq<char>, id: int|
            #![trigger query_tokens(input@).contains(t), item_tokens(ix@.items[id])]
            query_tokens(input@).contains(t) && 0 <= id < ix@.items.len() && item_tokens(
                ix@.items[id],
            ).contains(t) ==> r.deep_view().contains(ix@.items[id]),
        (forall|i: int, j: int|
            #![trigger ix@.items[i], ix@.items[j]]
            0 <= i < j < ix@.items.len() ==> ix@.items[i] != ix@.items[j]) ==> (forall|
            k1: int,
            k2: int,
        |
            #![trigger r.deep_view()[k1], r.deep_view()[k2]]
            0 <= k1 < k2 < r.deep_view().len() ==> r.deep_view()[k1] != r.deep_view()[k2]),
        (forall|i: int| 0 <= i < input@.len() ==> !is_alpha_char(#[trigger] input@[i]))
            ==> r@.len() == 0,
{
    let ghost x = ix@;
    let ghost qts = query_tokens(input@);
    let arena_n = ix.items.len();
    proof {
        assert(x.items.len() == arena_n as int);
    }
    let qv = chars_of(input.as_str());
    let filtered = query_filter_exec(&qv);
    let qtoks = qsplit_exec(&filtered);
    proof {
        assert(qtoks.deep_view() == qts);
    }
    let nq = qtoks.len();
    let mut ids: Vec<usize> = Vec::new();
    let mut qi: usize = 0;
    while qi < nq
        invariant
            qi <= nq,
            nq == qtoks@.len(),
            qtoks.deep_view() == qts,
            ix.wf(),
            x == ix@,
            forall|k: int| 0 <= k < ids@.len() ==> id_ok(x, qts, #[trigger] ids@[k]),
            forall|k1: int, k2: int|
                #![trigger ids@[k1], ids@[k2]]
                0 <= k1 < k2 < ids@.len() ==> ids@[k1] != ids@[k2],
            forall|tj: int, id: int|
                #![trigger item_tokens(x.items[id]).contains(qts[tj])]
                0 <= tj < qi && 0 <= id < x.items.len() && item_tokens(x.items[id]).contains(
                    qts[tj],
                ) ==> ids@.contains(id as usize),
            qts.len() == 0 ==> ids@.len() == 0,
        decreases nq - qi,
    {
        proof {
            assert(qtoks@[qi as int]@ == qts[qi as int]);
            assert(qts.contains(qts[qi as int]));
        }
        let ghost pre_ids = ids@;
        union_token(ix, &qtoks[qi], &mut ids, Ghost(qts));
        proof {
            assert forall|tj: int, id: int|
                #![trigger item_tokens(x.items[id]).contains(qts[tj])]
                0 <= tj < qi + 1 && 0 <= id < x.items.len() && item_tokens(
                    x.items[id],
                ).contains(qts[tj]) implies ids@.contains(id as usize) by {
                if tj < qi {
                    assert(pre_ids.contains(id as usize));
                }
            }
        }
        qi = qi + 1;
    }
    let mut r: Vec<Item> = Vec::new();
    let nk = ids.len();
    let mut k: usize = 0;
    while k < nk
        invariant
            k <= nk,
            nk == ids@.len(),
            x == ix@,
            forall|kk: int| 0 <= kk < ids@.len() ==> id_ok(x, qts, #[trigger] ids@[kk]),
            r@.len() == k,
            forall|kk: int| 0 <= kk < k ==> #[trigger] r@[kk]@ == x.items[ids@[kk] as int],
            qts.len() == 0 ==> nk == 0,
        decreases nk - k,
    {
        let id = ids[k];
        proof {
            assert(id_ok(x, qts, id));
            assert(ix.items.deep_view() == x.items);
            assert(ix.items@[id as int]@ == x.items[id as int]);
        }
        let it = ix.items[id].duplicate();
        r.push(it);
        k = k + 1;
    }
    proof {
        let res = r.deep_view();
        assert forall|kk: int| 0 <= kk < res.len() implies result_ok(
            x,
            qts,
            #[trigger] res[kk],
        ) by {
            assert(res[kk] == r@[kk]@);
            assert(res[kk] == x.items[ids@[kk] as int]);
            assert(id_ok(x, qts, ids@[kk]));
        }
        assert forall|t: Seq<char>, id: int|
            #![trigger qts.contains(t), item_tokens(x.items[id])]
            qts.contains(t) && 0 <= id < x.items.len() && item_tokens(x.items[id]).contains(
                t,
            ) implies res.contains(x.items[id]) by {
            let tj = choose|tj: int| 0 <= tj < qts.len() && qts[tj] == t;
            assert(item_tokens(x.items[id]).contains(qts[tj]));
            assert(ids@.contains(id as usize));
            let kk = choose|kk: int| 0 <= kk < ids@.len() && ids@[kk] == id as usize;
            assert(res[kk] == r@[kk]@);
            assert(r@[kk]@ == x.items[ids@[kk] as int]);
            assert(x.items.len() == arena_n as int);
            assert(ids@[kk] as int == id);
            assert(res[kk] == x.items[id]);
        }
        if forall|i: int, j: int|
            #![trigger x.items[i], x.items[j]]
            0 <= i < j < x.items.len() ==> x.items[i] != x.items[j] {
            assert forall|k1: int, k2: int|
                #![trigger res[k1], res[k2]]
                0 <= k1 < k2 < res.len() implies res[k1] != res[k2] by {
                let i1 = ids@[k1] as int;
                let i2 = ids@[k2] as int;
                assert(ids@[k1] != ids@[k2]);
                if i1 < i2 {
                    assert(x.items[i1] != x.items[i2]);
                } else {
                    assert(x.items[i2] != x.items[i1]);
                }
            }
        }
        if forall|i: int| 0 <= i < input@.len() ==> !is_alpha_char(#[trigger] input@[i]) {
            query_without_letters_is_empty(input@);
            assert(qts.len() == 0);
            assert(r@.len() == 0);
        }
    }
    r
}

} // verus!
