//! What holds of the decoder and the writer together.
use vstd::prelude::*;

use crate::file::{decode, FileModel};
use crate::model::{assemble, run, Tok};
use crate::separator::{is_plain, is_reserved, sep_char, token_of, tokens_of, FS, GS, RS, US};
use crate::writer::{file_text, group_text, join, record_text};

verus! {

/// The container that is open after `input` has been read from `open`.
pub open spec fn open_after<T>(open: Seq<T>, input: Seq<Tok<T>>) -> Seq<T>
    decreases input.len(),
{
    if input.len() == 0 {
        open
    } else {
        match input[0] {
            Tok::Item(x) => open_after(open.push(x), input.drop_first()),
            Tok::Bound(_) => open_after(Seq::empty(), input.drop_first()),
        }
    }
}

/// Each value as an item token.
pub open spec fn items<X>(xs: Seq<X>) -> Seq<Tok<X>> {
    xs.map_values(|x: X| Tok::Item(x))
}

/// Token sequences with a boundary of rank `b` between each two neighbours.
pub open spec fn tjoin<X>(ps: Seq<Seq<Tok<X>>>, b: u8) -> Seq<Tok<X>>
    decreases ps.len(),
{
    if ps.len() == 0 {
        Seq::empty()
    } else if ps.len() == 1 {
        ps[0]
    } else {
        tjoin(ps.drop_last(), b).push(Tok::Bound(b)) + ps.last()
    }
}

/// What a layer makes of `p` when a boundary of another rank follows it:
/// its output, then the container left open.
pub open spec fn seg<T>(p: Seq<Tok<T>>, own: u8) -> Seq<Tok<Seq<T>>> {
    run(Seq::empty(), p, own, false).push(Tok::Item(open_after(Seq::empty(), p)))
}

proof fn lemma_run_split<T>(open: Seq<T>, a: Seq<Tok<T>>, b: Seq<Tok<T>>, own: u8, flush: bool)
    ensures
        run(open, a + b, own, flush) == run(open, a, own, false) + run(open_after(open, a), b, own, flush),
        open_after(open, a + b) == open_after(open_after(open, a), b),
    decreases a.len(),
{
    if a.len() == 0 {
        assert(a + b =~= b);
        assert(run(open, a, own, false) + run(open, b, own, flush) =~= run(open, b, own, flush));
    } else {
        assert((a + b).drop_first() =~= a.drop_first() + b);
        assert((a + b)[0] == a[0]);
        match a[0] {
            Tok::Item(x) => {
                lemma_run_split(open.push(x), a.drop_first(), b, own, flush);
            },
            Tok::Bound(k) => {
                lemma_run_split(Seq::<T>::empty(), a.drop_first(), b, own, flush);
                let r1 = run(Seq::<T>::empty(), a.drop_first(), own, false);
                let r2 = run(open_after(Seq::<T>::empty(), a.drop_first()), b, own, flush);
                if k == own {
                    assert(seq![Tok::Item(open)] + (r1 + r2) =~= (seq![Tok::Item(open)] + r1) + r2);
                } else {
                    assert(seq![Tok::Item(open), Tok::Bound(k)] + (r1 + r2) =~= (seq![
                        Tok::Item(open),
                        Tok::Bound(k),
                    ] + r1) + r2);
                }
            },
        }
    }
}

proof fn lemma_items<T>(open: Seq<T>, xs: Seq<T>, own: u8)
    ensures
        run(open, items(xs), own, false) == Seq::<Tok<Seq<T>>>::empty(),
        open_after(open, items(xs)) == open + xs,
    decreases xs.len(),
{
    if xs.len() == 0 {
        assert(open + xs =~= open);
    } else {
        assert(items(xs).drop_first() =~= items(xs.drop_first()));
        lemma_items(open.push(xs[0]), xs.drop_first(), own);
        assert(open.push(xs[0]) + xs.drop_first() =~= open + xs);
    }
}

proof fn lemma_assemble_items<T>(open: Seq<T>, xs: Seq<T>)
    ensures
        assemble(open, items(xs), true) == (if open.len() + xs.len() > 0 {
            seq![open + xs]
        } else {
            Seq::empty()
        }),
    decreases xs.len(),
{
    if xs.len() == 0 {
        assert(open + xs =~= open);
    } else {
        assert(items(xs).drop_first() =~= items(xs.drop_first()));
        lemma_assemble_items(open.push(xs[0]), xs.drop_first());
        assert(open.push(xs[0]) + xs.drop_first() =~= open + xs);
    }
}

/// A layer reads back, in order, the containers `xs` written with its own
/// boundary between each two, when a boundary of another level follows; the
/// last container is the one left open.
pub proof fn lemma_seg_items<T>(xs: Seq<Seq<T>>, own: u8)
    requires
        xs.len() > 0,
    ensures
        seg(tjoin(xs.map_values(|x: Seq<T>| items(x)), own), own) == items(xs),
        open_after(Seq::empty(), tjoin(xs.map_values(|x: Seq<T>| items(x)), own)) == xs.last(),
    decreases xs.len(),
{
    let ps = xs.map_values(|x: Seq<T>| items(x));
    if xs.len() == 1 {
        lemma_items(Seq::<T>::empty(), xs[0], own);
        assert(Seq::<T>::empty() + xs[0] =~= xs[0]);
        assert(seq![Tok::Item(xs[0])] =~= items(xs));
        assert(Seq::<Tok<Seq<T>>>::empty().push(Tok::Item(xs[0])) =~= seq![Tok::Item(xs[0])]);
    } else {
        let init = xs.drop_last();
        lemma_seg_items(init, own);
        assert(ps.drop_last() =~= init.map_values(|x: Seq<T>| items(x)));
        let p = tjoin(ps.drop_last(), own);
        let last = items(xs.last());
        assert(tjoin(ps, own) == p.push(Tok::Bound(own)) + last);
        assert(p.push(Tok::Bound(own)) + last =~= p + (seq![Tok::Bound(own)] + last));
        lemma_run_split(Seq::<T>::empty(), p, seq![Tok::Bound(own)] + last, own, false);
        lemma_items(Seq::<T>::empty(), xs.last(), own);
        assert((seq![Tok::<T>::Bound(own)] + last).drop_first() =~= last);
        assert(Seq::<T>::empty() + xs.last() =~= xs.last());
        assert(items(xs) =~= items(init).push(Tok::Item(xs.last())));
        assert(seq![Tok::Item(open_after(Seq::<T>::empty(), p))] + Seq::<Tok<Seq<T>>>::empty() =~= seq![
            Tok::Item(open_after(Seq::<T>::empty(), p)),
        ]);
        assert(run(Seq::<T>::empty(), p, own, false) + seq![Tok::Item(open_after(Seq::<T>::empty(), p))]
            =~= seg(p, own));
    }
}

proof fn lemma_seg_join<T>(ps: Seq<Seq<Tok<T>>>, j: u8, own: u8)
    requires
        ps.len() > 0,
        j != own,
    ensures
        seg(tjoin(ps, j), own) == tjoin(ps.map_values(|p: Seq<Tok<T>>| seg(p, own)), j),
        open_after(Seq::empty(), tjoin(ps, j)) == open_after(Seq::<T>::empty(), ps.last()),
    decreases ps.len(),
{
    let qs = ps.map_values(|p: Seq<Tok<T>>| seg(p, own));
    if ps.len() == 1 {
        assert(qs.len() == 1);
    } else {
        let init = ps.drop_last();
        lemma_seg_join(init, j, own);
        assert(qs.drop_last() =~= init.map_values(|p: Seq<Tok<T>>| seg(p, own)));
        let p = tjoin(init, j);
        let last = ps.last();
        assert(tjoin(ps, j) == p.push(Tok::Bound(j)) + last);
        assert(p.push(Tok::Bound(j)) + last =~= p + (seq![Tok::Bound(j)] + last));
        lemma_run_split(Seq::<T>::empty(), p, seq![Tok::Bound(j)] + last, own, false);
        assert((seq![Tok::<T>::Bound(j)] + last).drop_first() =~= last);
        let o = open_after(Seq::<T>::empty(), p);
        let rp = run(Seq::<T>::empty(), p, own, false);
        let rl = run(Seq::<T>::empty(), last, own, false);
        assert(run(o, seq![Tok::Bound(j)] + last, own, false) == seq![Tok::Item(o), Tok::Bound(j)] + rl);
        assert(seg(tjoin(ps, j), own) =~= seg(p, own).push(Tok::Bound(j)) + qs.last());
    }
}

proof fn lemma_flush<T>(p: Seq<Tok<T>>, own: u8)
    requires
        open_after(Seq::<T>::empty(), p).len() > 0,
    ensures
        run(Seq::empty(), p, own, true) == seg(p, own),
{
    lemma_run_split(Seq::<T>::empty(), p, Seq::empty(), own, true);
    assert(p + Seq::empty() =~= p);
    assert(run(Seq::<T>::empty(), p, own, false) + seq![Tok::Item(open_after(Seq::<T>::empty(), p))]
        =~= seg(p, own));
}

proof fn lemma_tokens_plain(u: Seq<char>)
    requires
        is_plain(u),
    ensures
        tokens_of(u) == items(u),
{
    assert forall|i: int| 0 <= i < u.len() implies tokens_of(u)[i] == items(u)[i] by {
        assert(!crate::separator::is_reserved(u[i]));
    }
    assert(tokens_of(u) =~= items(u));
}

proof fn lemma_tokens_join(ps: Seq<Seq<char>>, k: u8)
    requires
        k <= 3,
    ensures
        tokens_of(join(ps, sep_char(k))) == tjoin(ps.map_values(|p: Seq<char>| tokens_of(p)), k),
    decreases ps.len(),
{
    let qs = ps.map_values(|p: Seq<char>| tokens_of(p));
    if ps.len() == 0 {
        assert(tokens_of(Seq::empty()) =~= Seq::empty());
    } else if ps.len() == 1 {
    } else {
        let init = ps.drop_last();
        lemma_tokens_join(init, k);
        assert(qs.drop_last() =~= init.map_values(|p: Seq<char>| tokens_of(p)));
        let a = join(init, sep_char(k));
        assert(token_of(sep_char(k)) == Tok::<char>::Bound(k));
        assert(tokens_of(a.push(sep_char(k)) + ps.last()) =~= tokens_of(a).push(Tok::Bound(k))
            + tokens_of(ps.last()));
    }
}

/// A record at the level of characters.
pub open spec fn record_tokens(r: Seq<Seq<char>>) -> Seq<Tok<char>> {
    tjoin(r.map_values(|u: Seq<char>| items(u)), 0)
}

/// A group at the level of characters.
pub open spec fn group_tokens(g: Seq<Seq<Seq<char>>>) -> Seq<Tok<char>> {
    tjoin(g.map_values(|r: Seq<Seq<char>>| record_tokens(r)), 1)
}

/// A group at the level of units.
pub open spec fn group_units(g: Seq<Seq<Seq<char>>>) -> Seq<Tok<Seq<char>>> {
    tjoin(g.map_values(|r: Seq<Seq<char>>| items(r)), 1)
}

/// Whether a file comes back from its text as it was written: it has a
/// group, every group has a record, every record has a unit, no unit holds a
/// separator, and the very last unit is not empty.
pub open spec fn round_trippable(d: FileModel) -> bool {
    &&& d.len() > 0
    &&& forall|i: int| 0 <= i < d.len() ==> (#[trigger] d[i]).len() > 0
    &&& forall|i: int, j: int|
        0 <= i < d.len() && 0 <= j < d[i].len() ==> (#[trigger] d[i][j]).len() > 0
    &&& forall|i: int, j: int, k: int|
        0 <= i < d.len() && 0 <= j < d[i].len() && 0 <= k < d[i][j].len() ==> is_plain(
            #[trigger] d[i][j][k],
        )
    &&& d.last().last().last().len() > 0
}

proof fn lemma_record_text_tokens(r: Seq<Seq<char>>)
    requires
        forall|k: int| 0 <= k < r.len() ==> is_plain(#[trigger] r[k]),
    ensures
        tokens_of(record_text(r)) == record_tokens(r),
{
    lemma_tokens_join(r, 0);
    let a = r.map_values(|p: Seq<char>| tokens_of(p));
    let b = r.map_values(|u: Seq<char>| items(u));
    assert forall|k: int| 0 <= k < r.len() implies a[k] == b[k] by {
        lemma_tokens_plain(r[k]);
    }
    assert(a =~= b);
}

proof fn lemma_group_text_tokens(g: Seq<Seq<Seq<char>>>)
    requires
        forall|j: int, k: int| 0 <= j < g.len() && 0 <= k < g[j].len() ==> is_plain(#[trigger] g[j][k]),
    ensures
        tokens_of(group_text(g)) == group_tokens(g),
{
    let t = g.map_values(|r: Seq<Seq<char>>| record_text(r));
    lemma_tokens_join(t, 1);
    let a = t.map_values(|p: Seq<char>| tokens_of(p));
    let b = g.map_values(|r: Seq<Seq<char>>| record_tokens(r));
    assert forall|j: int| 0 <= j < g.len() implies a[j] == b[j] by {
        assert forall|k: int| 0 <= k < g[j].len() implies is_plain(#[trigger] g[j][k]) by {
            assert(is_plain(g[j][k]));
        }
        lemma_record_text_tokens(g[j]);
    }
    assert(a =~= b);
}

proof fn lemma_file_text_tokens(d: FileModel)
    requires
        round_trippable(d),
    ensures
        tokens_of(file_text(d)) == tjoin(d.map_values(|g: Seq<Seq<Seq<char>>>| group_tokens(g)), 2),
{
    let t = d.map_values(|g: Seq<Seq<Seq<char>>>| group_text(g));
    lemma_tokens_join(t, 2);
    let a = t.map_values(|p: Seq<char>| tokens_of(p));
    let b = d.map_values(|g: Seq<Seq<Seq<char>>>| group_tokens(g));
    assert forall|i: int| 0 <= i < d.len() implies a[i] == b[i] by {
        assert forall|j: int, k: int| 0 <= j < d[i].len() && 0 <= k < d[i][j].len() implies is_plain(
            #[trigger] d[i][j][k],
        ) by {
            assert(is_plain(d[i][j][k]));
        }
        lemma_group_text_tokens(d[i]);
    }
    assert(a =~= b);
}

/// The unit layer on a group: its records as items, separated by record
/// boundaries; and the unit left open is the group's last.
proof fn lemma_group_layer0(g: Seq<Seq<Seq<char>>>)
    requires
        g.len() > 0,
        forall|j: int| 0 <= j < g.len() ==> (#[trigger] g[j]).len() > 0,
    ensures
        seg(group_tokens(g), 0) == group_units(g),
        open_after(Seq::empty(), group_tokens(g)) == g.last().last(),
{
    let ps = g.map_values(|r: Seq<Seq<char>>| record_tokens(r));
    lemma_seg_join(ps, 1, 0);
    let a = ps.map_values(|p: Seq<Tok<char>>| seg(p, 0));
    let b = g.map_values(|r: Seq<Seq<char>>| items(r));
    assert forall|j: int| 0 <= j < g.len() implies a[j] == b[j] by {
        lemma_seg_items(g[j], 0);
        assert(g[j].map_values(|u: Seq<char>| items(u)) =~= g[j].map_values(|x: Seq<char>| items(x)));
    }
    assert(a =~= b);
    lemma_seg_items(g.last(), 0);
    assert(g.last().map_values(|u: Seq<char>| items(u)) =~= g.last().map_values(|x: Seq<char>| items(x)));
}

/// The text of one file, layer by layer: the characters' tokens, and what
/// each of the three lower layers makes of them when a file boundary follows.
proof fn lemma_file_layers(d: FileModel)
    requires
        round_trippable(d),
    ensures
        tokens_of(file_text(d)) == tjoin(d.map_values(|g: Seq<Seq<Seq<char>>>| group_tokens(g)), 2),
        seg(tjoin(d.map_values(|g: Seq<Seq<Seq<char>>>| group_tokens(g)), 2), 0) == tjoin(
            d.map_values(|g: Seq<Seq<Seq<char>>>| group_units(g)),
            2,
        ),
        open_after(Seq::empty(), tjoin(d.map_values(|g: Seq<Seq<Seq<char>>>| group_tokens(g)), 2))
            == d.last().last().last(),
        seg(tjoin(d.map_values(|g: Seq<Seq<Seq<char>>>| group_units(g)), 2), 1) == tjoin(
            d.map_values(|g: Seq<Seq<Seq<char>>>| items(g)),
            2,
        ),
        open_after(Seq::empty(), tjoin(d.map_values(|g: Seq<Seq<Seq<char>>>| group_units(g)), 2))
            == d.last().last(),
        seg(tjoin(d.map_values(|g: Seq<Seq<Seq<char>>>| items(g)), 2), 2) == items(d),
        open_after(Seq::empty(), tjoin(d.map_values(|g: Seq<Seq<Seq<char>>>| items(g)), 2)) == d.last(),
{
    lemma_file_text_tokens(d);
    // the unit layer
    let gs = d.map_values(|g: Seq<Seq<Seq<char>>>| group_tokens(g));
    lemma_seg_join(gs, 2, 0);
    assert forall|i: int| 0 <= i < d.len() implies seg(gs[i], 0) == group_units(d[i]) && open_after(
        Seq::<char>::empty(),
        gs[i],
    ) == d[i].last().last() by {
        assert forall|j: int| 0 <= j < d[i].len() implies (#[trigger] d[i][j]).len() > 0 by {
            assert(d[i][j].len() > 0);
        }
        assert(d[i].len() > 0);
        lemma_group_layer0(d[i]);
    }
    let us = d.map_values(|g: Seq<Seq<Seq<char>>>| group_units(g));
    assert(gs.map_values(|p: Seq<Tok<char>>| seg(p, 0)) =~= us);
    // the record layer
    lemma_seg_join(us, 2, 1);
    assert forall|i: int| 0 <= i < d.len() implies seg(us[i], 1) == items(d[i]) && open_after(
        Seq::<Seq<char>>::empty(),
        us[i],
    ) == d[i].last() by {
        assert(d[i].len() > 0);
        lemma_seg_items(d[i], 1);
        assert(d[i].map_values(|r: Seq<Seq<char>>| items(r)) =~= d[i].map_values(
            |x: Seq<Seq<char>>| items(x),
        ));
    }
    let rs = d.map_values(|g: Seq<Seq<Seq<char>>>| items(g));
    assert(us.map_values(|p: Seq<Tok<Seq<char>>>| seg(p, 1)) =~= rs);
    // the group layer
    lemma_seg_items(d, 2);
    assert(d.map_values(|g: Seq<Seq<Seq<char>>>| items(g)) =~= d.map_values(
        |x: Seq<Seq<Seq<char>>>| items(x),
    ));
}

/// Encoding a file and decoding the text gives back exactly that file, in
/// one piece, for every file that the format can carry unchanged.
pub proof fn lemma_round_trip(d: FileModel)
    requires
        round_trippable(d),
    ensures
        decode(file_text(d), false) == seq![d],
{
    lemma_file_layers(d);
    let x0 = tjoin(d.map_values(|g: Seq<Seq<Seq<char>>>| group_tokens(g)), 2);
    let x1 = tjoin(d.map_values(|g: Seq<Seq<Seq<char>>>| group_units(g)), 2);
    let x2 = tjoin(d.map_values(|g: Seq<Seq<Seq<char>>>| items(g)), 2);
    lemma_flush(x0, 0);
    lemma_flush(x1, 1);
    lemma_flush(x2, 2);
    lemma_assemble_items(Seq::<Seq<Seq<Seq<char>>>>::empty(), d);
    assert(Seq::<Seq<Seq<Seq<char>>>>::empty() + d =~= d);
}

proof fn lemma_assemble_split<T>(open: Seq<T>, a: Seq<Tok<T>>, b: Seq<Tok<T>>, flush: bool)
    ensures
        assemble(open, a + b, flush) == assemble(open, a, false) + assemble(open_after(open, a), b, flush),
    decreases a.len(),
{
    if a.len() == 0 {
        assert(a + b =~= b);
        assert(assemble(open, a, false) + assemble(open, b, flush) =~= assemble(open, b, flush));
    } else {
        assert((a + b).drop_first() =~= a.drop_first() + b);
        assert((a + b)[0] == a[0]);
        match a[0] {
            Tok::Item(x) => {
                lemma_assemble_split(open.push(x), a.drop_first(), b, flush);
            },
            Tok::Bound(k) => {
                lemma_assemble_split(Seq::<T>::empty(), a.drop_first(), b, flush);
                let r1 = assemble(Seq::<T>::empty(), a.drop_first(), false);
                let r2 = assemble(open_after(Seq::<T>::empty(), a.drop_first()), b, flush);
                assert(seq![open] + (r1 + r2) =~= (seq![open] + r1) + r2);
            },
        }
    }
}

/// A boundary at the very end, after content, adds to a layer's output at most
/// that boundary passed on; and the output ends in content.
pub proof fn lemma_trailing<T>(x: Seq<Tok<T>>, own: u8, k: u8)
    requires
        open_after(Seq::<T>::empty(), x).len() > 0,
    ensures
        run(Seq::empty(), x.push(Tok::Bound(k)), own, true) == (if k == own {
            run(Seq::empty(), x, own, true)
        } else {
            run(Seq::empty(), x, own, true).push(Tok::Bound(k))
        }),
        open_after(Seq::<Seq<T>>::empty(), run(Seq::empty(), x, own, true)).len() > 0,
{
    let e = Seq::<T>::empty();
    let o = open_after(e, x);
    lemma_run_split(e, x, seq![Tok::Bound(k)], own, true);
    assert(x.push(Tok::Bound(k)) =~= x + seq![Tok::Bound(k)]);
    assert(seq![Tok::<T>::Bound(k)].drop_first() =~= Seq::<Tok<T>>::empty());
    lemma_flush(x, own);
    let r = run(e, x, own, false);
    assert(run(e, Seq::<Tok<T>>::empty(), own, true) == Seq::<Tok<Seq<T>>>::empty());
    assert(seq![Tok::<T>::Bound(k)][0] == Tok::<T>::Bound(k));
    if k == own {
        assert(run(o, seq![Tok::Bound(k)], own, true) =~= seq![Tok::Item(o)]);
        assert(r + seq![Tok::Item(o)] =~= seg(x, own));
    } else {
        assert(run(o, seq![Tok::Bound(k)], own, true) =~= seq![Tok::Item(o), Tok::Bound(k)]);
        assert(r + seq![Tok::Item(o), Tok::Bound(k)] =~= seg(x, own).push(Tok::Bound(k)));
    }
    lemma_run_split(Seq::<Seq<T>>::empty(), r, seq![Tok::Item(o)], own, true);
    assert(r + seq![Tok::Item(o)] =~= seg(x, own));
    assert(seq![Tok::Item(o)].drop_first() =~= Seq::<Tok<Seq<T>>>::empty());
    let q = open_after(Seq::<Seq<T>>::empty(), r);
    assert(seq![Tok::Item(o)][0] == Tok::Item(o));
    assert(open_after(q.push(o), Seq::<Tok<Seq<T>>>::empty()) == q.push(o));
    assert(open_after(q, seq![Tok::Item(o)]) == q.push(o));
}

proof fn lemma_assemble_trailing<T>(x: Seq<Tok<T>>, k: u8)
    requires
        open_after(Seq::<T>::empty(), x).len() > 0,
    ensures
        assemble(Seq::empty(), x.push(Tok::Bound(k)), true) == assemble(Seq::empty(), x, true),
{
    let e = Seq::<T>::empty();
    let o = open_after(e, x);
    lemma_assemble_split(e, x, seq![Tok::Bound(k)], true);
    lemma_assemble_split(e, x, Seq::empty(), true);
    assert(x.push(Tok::Bound(k)) =~= x + seq![Tok::Bound(k)]);
    assert(x + Seq::empty() =~= x);
    assert(seq![Tok::<T>::Bound(k)].drop_first() =~= Seq::<Tok<T>>::empty());
    assert(assemble(e, Seq::<Tok<T>>::empty(), true) == Seq::<Seq<T>>::empty());
    assert(seq![Tok::<T>::Bound(k)][0] == Tok::<T>::Bound(k));
    assert(assemble(o, seq![Tok::Bound(k)], true) =~= seq![o]);
}

/// A text that ends in content decodes to the same files whether or not one
/// separator follows it (two separators at the end, by contrast, close an
/// empty container between them).
pub proof fn lemma_trailing_separator(s: Seq<char>, sep: char)
    requires
        s.len() > 0,
        !is_reserved(s.last()),
        is_reserved(sep),
    ensures
        decode(s.push(sep), false) == decode(s, false),
{
    let t = tokens_of(s);
    let k: u8 = if sep == US {
        0
    } else if sep == RS {
        1
    } else if sep == GS {
        2
    } else {
        3
    };
    assert(tokens_of(s.push(sep)) =~= t.push(Tok::Bound(k)));
    let e = Seq::<char>::empty();
    lemma_run_split(e, t.drop_last(), seq![t.last()], 0, true);
    assert(t.drop_last() + seq![t.last()] =~= t);
    assert(t.last() == Tok::Item(s.last()));
    assert(seq![t.last()].drop_first() =~= Seq::<Tok<char>>::empty());
    let o0 = open_after(e, t.drop_last());
    assert(seq![t.last()][0] == Tok::Item(s.last()));
    assert(open_after(o0.push(s.last()), Seq::<Tok<char>>::empty()) == o0.push(s.last()));
    assert(open_after(o0, seq![t.last()]) == o0.push(s.last()));
    assert(open_after(e, t).len() > 0);
    lemma_trailing(t, 0, k);
    let u = run(e, t, 0, true);
    if k == 0 {
    } else {
        lemma_trailing(u, 1, k);
        let r = run(Seq::empty(), u, 1, true);
        if k == 1 {
        } else {
            lemma_trailing(r, 2, k);
            let g = run(Seq::empty(), r, 2, true);
            if k == 2 {
            } else {
                lemma_assemble_trailing(g, k);
            }
        }
    }
}

/// What the top layer makes of `p` when a boundary follows it.
spec fn aseg<T>(p: Seq<Tok<T>>) -> Seq<Seq<T>> {
    assemble(Seq::empty(), p, false).push(open_after(Seq::empty(), p))
}

proof fn lemma_aseg_items<T>(xs: Seq<Seq<T>>, b: u8)
    requires
        xs.len() > 0,
    ensures
        aseg(tjoin(xs.map_values(|x: Seq<T>| items(x)), b)) == xs,
        open_after(Seq::empty(), tjoin(xs.map_values(|x: Seq<T>| items(x)), b)) == xs.last(),
    decreases xs.len(),
{
    let ps = xs.map_values(|x: Seq<T>| items(x));
    let e = Seq::<T>::empty();
    if xs.len() == 1 {
        lemma_assemble_split(e, items(xs[0]), Seq::empty(), false);
        lemma_items(e, xs[0], 0);
        lemma_run_split(e, items(xs[0]), Seq::empty(), 0, false);
        assert(items(xs[0]) + Seq::empty() =~= items(xs[0]));
        lemma_assemble_empty_items(e, xs[0]);
        assert(e + xs[0] =~= xs[0]);
        assert(aseg(items(xs[0])) =~= xs);
    } else {
        let init = xs.drop_last();
        lemma_aseg_items(init, b);
        assert(ps.drop_last() =~= init.map_values(|x: Seq<T>| items(x)));
        let p = tjoin(ps.drop_last(), b);
        let last = items(xs.last());
        assert(tjoin(ps, b) == p.push(Tok::Bound(b)) + last);
        assert(p.push(Tok::Bound(b)) + last =~= p + (seq![Tok::Bound(b)] + last));
        lemma_assemble_split(e, p, seq![Tok::Bound(b)] + last, false);
        lemma_run_split(e, p, seq![Tok::Bound(b)] + last, 0, false);
        assert((seq![Tok::<T>::Bound(b)] + last).drop_first() =~= last);
        assert((seq![Tok::<T>::Bound(b)] + last)[0] == Tok::<T>::Bound(b));
        lemma_items(e, xs.last(), 0);
        lemma_assemble_empty_items(e, xs.last());
        assert(e + xs.last() =~= xs.last());
        let o = open_after(e, p);
        assert(assemble(o, seq![Tok::Bound(b)] + last, false) == seq![o] + assemble(e, last, false));
        assert(aseg(tjoin(ps, b)) =~= aseg(p).push(xs.last()));
        assert(init.push(xs.last()) =~= xs);
    }
}

proof fn lemma_assemble_empty_items<T>(open: Seq<T>, xs: Seq<T>)
    ensures
        assemble(open, items(xs), false) == Seq::<Seq<T>>::empty(),
    decreases xs.len(),
{
    if xs.len() > 0 {
        assert(items(xs).drop_first() =~= items(xs.drop_first()));
        lemma_assemble_empty_items(open.push(xs[0]), xs.drop_first());
    }
}

/// Files written one after another, with the file separator between each
/// two, decode to those files in the order in which they were written.
pub proof fn lemma_files_in_order(docs: Seq<FileModel>)
    requires
        docs.len() > 0,
        forall|i: int| 0 <= i < docs.len() ==> round_trippable(#[trigger] docs[i]),
    ensures
        decode(join(docs.map_values(|d: FileModel| file_text(d)), FS), false) == docs,
{
    let x0 = |d: FileModel| tjoin(d.map_values(|g: Seq<Seq<Seq<char>>>| group_tokens(g)), 2);
    let x1 = |d: FileModel| tjoin(d.map_values(|g: Seq<Seq<Seq<char>>>| group_units(g)), 2);
    let x2 = |d: FileModel| tjoin(d.map_values(|g: Seq<Seq<Seq<char>>>| items(g)), 2);
    let texts = docs.map_values(|d: FileModel| file_text(d));
    lemma_tokens_join(texts, 3);
    let a0 = docs.map_values(x0);
    let a1 = docs.map_values(x1);
    let a2 = docs.map_values(x2);
    let a3 = docs.map_values(|d: FileModel| items(d));
    assert forall|i: int| 0 <= i < docs.len() implies {
        &&& tokens_of(texts[i]) == a0[i]
        &&& seg(a0[i], 0) == a1[i]
        &&& seg(a1[i], 1) == a2[i]
        &&& seg(a2[i], 2) == a3[i]
    } by {
        lemma_file_layers(docs[i]);
    }
    assert(texts.map_values(|p: Seq<char>| tokens_of(p)) =~= a0);
    let last = docs.last();
    lemma_file_layers(last);
    // the unit layer
    lemma_seg_join(a0, 3, 0);
    assert(a0.map_values(|p: Seq<Tok<char>>| seg(p, 0)) =~= a1);
    lemma_flush(tjoin(a0, 3), 0);
    // the record layer
    lemma_seg_join(a1, 3, 1);
    assert(a1.map_values(|p: Seq<Tok<Seq<char>>>| seg(p, 1)) =~= a2);
    lemma_flush(tjoin(a1, 3), 1);
    // the group layer
    lemma_seg_join(a2, 3, 2);
    assert(a2.map_values(|p: Seq<Tok<Seq<Seq<char>>>>| seg(p, 2)) =~= a3);
    lemma_flush(tjoin(a2, 3), 2);
    // the file layer
    lemma_aseg_items(docs, 3);
    assert(a3 =~= docs.map_values(|x: FileModel| items(x)));
    let y = tjoin(a3, 3);
    lemma_assemble_split(Seq::empty(), y, Seq::empty(), true);
    assert(y + Seq::empty() =~= y);
    assert(assemble(open_after(Seq::<Seq<Seq<Seq<char>>>>::empty(), y), Seq::empty(), true) == seq![
        open_after(Seq::<Seq<Seq<Seq<char>>>>::empty(), y),
    ]);
    assert(assemble(Seq::empty(), y, false) + seq![open_after(Seq::<Seq<Seq<Seq<char>>>>::empty(), y)]
        =~= aseg(y));
}

proof fn lemma_small_runs<T>(o: Seq<T>, a: T, c: T, b: u8, own: u8)
    ensures
        run(o, seq![Tok::Item(a)], own, true) == seq![Tok::Item(o.push(a))],
        run(o, seq![Tok::Item(a), Tok::Item(c)], own, true) == seq![Tok::Item(o.push(a).push(c))],
        b == own ==> run(o, seq![Tok::Bound(b), Tok::Bound(b)], own, true) == seq![
            Tok::Item(o),
            Tok::Item(Seq::<T>::empty()),
        ],
        b != own ==> run(o, seq![Tok::Bound(b), Tok::Bound(b)], own, true) == seq![
            Tok::Item(o),
            Tok::Bound(b),
            Tok::Item(Seq::<T>::empty()),
            Tok::Bound(b),
        ],
        b == own ==> run(o, seq![Tok::Item(a), Tok::Bound(b), Tok::Item(c), Tok::Bound(b)], own, true)
            == seq![Tok::Item(o.push(a)), Tok::Item(seq![c])],
        b != own ==> run(o, seq![Tok::Item(a), Tok::Bound(b), Tok::Item(c), Tok::Bound(b)], own, true)
            == seq![Tok::Item(o.push(a)), Tok::Bound(b), Tok::Item(seq![c]), Tok::Bound(b)],
        assemble(o, seq![Tok::Item(a)], true) == seq![o.push(a)],
        assemble(o, seq![Tok::Item(a), Tok::Item(c)], true) == seq![o.push(a).push(c)],
        assemble(o, seq![Tok::Item(a), Tok::Bound(b), Tok::Item(c), Tok::Bound(b)], true) == seq![
            o.push(a),
            seq![c],
        ],
{
    reveal_with_fuel(run, 5);
    reveal_with_fuel(assemble, 5);
    let e = Seq::<T>::empty();
    let w1 = seq![Tok::Item(a)];
    let w2 = seq![Tok::Item(a), Tok::Item(c)];
    let w3 = seq![Tok::Bound(b), Tok::Bound(b)];
    let w4 = seq![Tok::Item(a), Tok::Bound(b), Tok::Item(c), Tok::Bound(b)];
    assert(w1.drop_first() =~= Seq::<Tok<T>>::empty());
    assert(w2.drop_first() =~= seq![Tok::Item(c)]);
    assert(w2.drop_first().drop_first() =~= Seq::<Tok<T>>::empty());
    assert(w3.drop_first() =~= seq![Tok::Bound(b)]);
    assert(w3.drop_first().drop_first() =~= Seq::<Tok<T>>::empty());
    assert(w4.drop_first() =~= seq![Tok::Bound(b), Tok::Item(c), Tok::Bound(b)]);
    assert(w4.drop_first().drop_first() =~= seq![Tok::Item(c), Tok::Bound(b)]);
    assert(w4.drop_first().drop_first().drop_first() =~= seq![Tok::Bound(b)]);
    assert(w4.drop_first().drop_first().drop_first().drop_first() =~= Seq::<Tok<T>>::empty());
    assert(e.push(c) =~= seq![c]);
    assert(seq![Tok::Item(o)] + (seq![Tok::Item(e)] + Seq::<Tok<Seq<T>>>::empty()) =~= seq![
        Tok::Item(o),
        Tok::Item(e),
    ]);
    assert(seq![Tok::Item(o), Tok::Bound(b)] + (seq![Tok::Item(e), Tok::Bound(b)] + Seq::<
        Tok<Seq<T>>,
    >::empty()) =~= seq![Tok::Item(o), Tok::Bound(b), Tok::Item(e), Tok::Bound(b)]);
    assert(seq![Tok::Item(o.push(a))] + (seq![Tok::Item(seq![c])] + Seq::<Tok<Seq<T>>>::empty())
        =~= seq![Tok::Item(o.push(a)), Tok::Item(seq![c])]);
    assert(seq![Tok::Item(o.push(a)), Tok::Bound(b)] + (seq![Tok::Item(seq![c]), Tok::Bound(b)]
        + Seq::<Tok<Seq<T>>>::empty()) =~= seq![
        Tok::Item(o.push(a)),
        Tok::Bound(b),
        Tok::Item(seq![c]),
        Tok::Bound(b),
    ]);
    assert(seq![o.push(a)] + (seq![seq![c]] + Seq::<Seq<T>>::empty()) =~= seq![o.push(a), seq![c]]);
}

/// `fs` with one empty container added at the end, at the level that `sep`
/// separates: an empty unit in the last record, a record of one empty unit
/// in the last group, a group of such a record in the last file, or a file
/// of such a group.
pub open spec fn with_empty(fs: Seq<FileModel>, sep: char) -> Seq<FileModel> {
    let f = fs.last();
    let g = f.last();
    let r = g.last();
    let empty_record = seq![Seq::<char>::empty()];
    if sep == FS {
        fs.push(seq![seq![empty_record]])
    } else if sep == GS {
        fs.update(fs.len() - 1, f.push(seq![empty_record]))
    } else if sep == RS {
        fs.update(fs.len() - 1, f.update(f.len() - 1, g.push(empty_record)))
    } else {
        fs.update(fs.len() - 1, f.update(f.len() - 1, g.update(g.len() - 1, r.push(Seq::empty()))))
    }
}

/// A text that ends in content, followed by two separators of one kind,
/// decodes to the files of the text alone with one empty container added at
/// that separator's level: the second separator closes a container with
/// nothing in it.
pub proof fn lemma_double_trailing_separator(s: Seq<char>, sep: char)
    requires
        s.len() > 0,
        !is_reserved(s.last()),
        is_reserved(sep),
    ensures
        decode(s.push(sep).push(sep), false) == with_empty(decode(s, false), sep),
{
    let t = tokens_of(s);
    let k: u8 = if sep == US {
        0
    } else if sep == RS {
        1
    } else if sep == GS {
        2
    } else {
        3
    };
    let bb = seq![Tok::<char>::Bound(k), Tok::<char>::Bound(k)];
    assert(tokens_of(s.push(sep).push(sep)) =~= t + bb);
    let e0 = Seq::<char>::empty();
    let e1 = Seq::<Seq<char>>::empty();
    let e2 = Seq::<Seq<Seq<char>>>::empty();
    let e3 = Seq::<Seq<Seq<Seq<char>>>>::empty();
    let o0 = open_after(e0, t);
    // the unit layer
    let p0 = run(e0, t, 0, false);
    lemma_run_split(e0, t, Seq::empty(), 0, true);
    lemma_run_split(e0, t, bb, 0, true);
    assert(t + Seq::empty() =~= t);
    assert(run(o0, Seq::empty(), 0, true) =~= seq![Tok::Item(o0)]) by {
        lemma_run_split(e0, t.drop_last(), seq![t.last()], 0, true);
        assert(t.drop_last() + seq![t.last()] =~= t);
        assert(t.last() == Tok::Item(s.last()));
        let q = open_after(e0, t.drop_last());
        assert(seq![t.last()][0] == Tok::Item(s.last()));
        assert(seq![t.last()].drop_first() =~= Seq::<Tok<char>>::empty());
        assert(open_after(q.push(s.last()), Seq::<Tok<char>>::empty()) == q.push(s.last()));
    }
    // the record layer
    let p1 = run(e1, p0, 1, false);
    let o1 = open_after(e1, p0);
    // the group layer
    let p2 = run(e2, p1, 2, false);
    let o2 = open_after(e2, p1);
    // the file layer
    let p3 = assemble(e3, p2, false);
    let o3 = open_after(e3, p2);
    let r = o1.push(o0);
    let g = o2.push(r);
    let er = seq![e0];
    lemma_small_runs(o0, s.last(), s.last(), k, 0);
    lemma_small_runs(o1, o0, e0, k, 1);
    lemma_small_runs(o1, o0, e0, 1, 1);
    lemma_small_runs(o2, r, er, k, 2);
    lemma_small_runs(o2, r, er, 2, 2);
    lemma_small_runs(o3, g, seq![er], k, 3);
    lemma_small_runs(o3, g, seq![er], 3, 3);
    lemma_small_runs(o2, o1.push(o0).push(e0), er, k, 2);
    lemma_small_runs(o3, o2.push(r.push(e0)), seq![er], k, 3);
    lemma_small_runs(o3, o2.push(r).push(er), seq![er], k, 3);
    // the text alone
    let w0 = seq![Tok::Item(o0)];
    lemma_run_split(e1, p0, w0, 1, true);
    let w1 = seq![Tok::Item(r)];
    lemma_run_split(e2, p1, w1, 2, true);
    let w2 = seq![Tok::Item(g)];
    lemma_assemble_split(e3, p2, w2, true);
    let f = o3.push(g);
    assert(decode(s, false) == p3 + seq![f]);
    // with the two separators
    let x0 = run(o0, bb, 0, true);
    lemma_run_split(e1, p0, x0, 1, true);
    let x1 = run(o1, x0, 1, true);
    lemma_run_split(e2, p1, x1, 2, true);
    let x2 = run(o2, x1, 2, true);
    lemma_assemble_split(e3, p2, x2, true);
    let fs = decode(s, false);
    assert(fs.last() == f);
    assert(f.last() == g);
    assert(g.last() == r);
    if k == 0 {
        assert(decode(s.push(sep).push(sep), false) =~= p3 + seq![o3.push(o2.push(r.push(e0)))]);
        assert(g.update(g.len() - 1, r.push(e0)) =~= o2.push(r.push(e0)));
        assert(f.update(f.len() - 1, o2.push(r.push(e0))) =~= o3.push(o2.push(r.push(e0))));
        assert(fs.update(fs.len() - 1, o3.push(o2.push(r.push(e0)))) =~= p3 + seq![
            o3.push(o2.push(r.push(e0))),
        ]);
        assert(with_empty(fs, sep) =~= p3 + seq![o3.push(o2.push(r.push(e0)))]);
    } else if k == 1 {
        assert(decode(s.push(sep).push(sep), false) =~= p3 + seq![o3.push(o2.push(r).push(er))]);
        assert(f.update(f.len() - 1, g.push(er)) =~= o3.push(o2.push(r).push(er)));
        assert(fs.update(fs.len() - 1, o3.push(o2.push(r).push(er))) =~= p3 + seq![
            o3.push(o2.push(r).push(er)),
        ]);
        assert(with_empty(fs, sep) =~= p3 + seq![o3.push(o2.push(r).push(er))]);
    } else if k == 2 {
        assert(decode(s.push(sep).push(sep), false) =~= p3 + seq![o3.push(g).push(seq![er])]);
        assert(with_empty(fs, sep) =~= p3 + seq![o3.push(g).push(seq![er])]);
    } else {
        assert(decode(s.push(sep).push(sep), false) =~= p3 + seq![f, seq![seq![er]]]);
        assert(with_empty(fs, sep) =~= p3 + seq![f, seq![seq![er]]]);
    }
}

} // verus!
