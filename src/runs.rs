//! Collapsing a keyed sequence into runs of equal class.

use itertools::Itertools;
use vstd::prelude::*;

verus! {

/// A byte of the working sequence paired with its class.
pub type Keyed = (u8, Option<u8>);

/// The first element of every maximal run of equal class: element `i` is
/// kept when it is the first one or its class differs from element `i - 1`.
pub open spec fn run_heads(k: Seq<Keyed>) -> Seq<Keyed>
    decreases k.len(),
{
    if k.len() <= 1 {
        k
    } else {
        let heads = run_heads(k.drop_last());
        if k.last().1 == k[k.len() - 2].1 {
            heads
        } else {
            heads.push(k.last())
        }
    }
}

/// `chunks` splits `items` into maximal runs of equal class: in order they
/// make up `items`, none is empty, each has one class throughout, and two
/// neighbours differ in class.
pub open spec fn is_run_split(items: Seq<Keyed>, chunks: Seq<Seq<Keyed>>) -> bool {
    &&& chunks.flatten() == items
    &&& forall|i: int| 0 <= i < chunks.len() ==> #[trigger] chunks[i].len() > 0
    &&& forall|i: int, j: int|
        0 <= i < chunks.len() && 0 <= j < chunks[i].len() ==> #[trigger] chunks[i][j].1
            == chunks[i][0].1
    &&& forall|i: int| 0 < i < chunks.len() ==> #[trigger] chunks[i][0].1 != chunks[i - 1][0].1
}

/// The views of a vector of chunks.
pub open spec fn chunk_views(v: Seq<Vec<Keyed>>) -> Seq<Seq<Keyed>> {
    v.map_values(|c: Vec<Keyed>| c@)
}

/// Relies on `itertools::Itertools::chunk_by`: consecutive items whose keys
/// (here the class) are equal go to one chunk, and the chunks come in order.
#[verifier::external_body]
fn chunk_by_class(items: Vec<Keyed>) -> (r: Vec<Vec<Keyed>>)
    ensures
        is_run_split(items@, chunk_views(r@)),
{
    let chunks = items.into_iter().chunk_by(|item| item.1);
    let r = chunks.into_iter().map(|(_, chunk)| chunk.collect()).collect();
    r
}

/// Appending one run whose class differs from the end of `a` adds exactly
/// its first element to the run heads.
proof fn lemma_run_heads_append_run(a: Seq<Keyed>, g: Seq<Keyed>)
    requires
        g.len() > 0,
        forall|j: int| 0 <= j < g.len() ==> #[trigger] g[j].1 == g[0].1,
        a.len() > 0 ==> a.last().1 != g[0].1,
    ensures
        run_heads(a + g) == run_heads(a).push(g[0]),
    decreases g.len(),
{
    let ag = a + g;
    if g.len() == 1 {
        assert(ag.drop_last() =~= a);
        if a.len() == 0 {
            assert(ag =~= seq![g[0]]);
            assert(run_heads(a) =~= Seq::<Keyed>::empty());
            assert(run_heads(a).push(g[0]) =~= seq![g[0]]);
        }
    } else {
        let gd = g.drop_last();
        assert(ag.drop_last() =~= a + gd);
        assert(ag[ag.len() - 2] == gd.last());
        assert(gd[0] == g[0]);
        lemma_run_heads_append_run(a, gd);
    }
}

/// The first elements of a split into maximal runs are the run heads.
proof fn lemma_split_heads(items: Seq<Keyed>, chunks: Seq<Seq<Keyed>>)
    requires
        is_run_split(items, chunks),
    ensures
        chunks.map_values(|c: Seq<Keyed>| c[0]) == run_heads(items),
    decreases chunks.len(),
{
    broadcast use Seq::lemma_flatten_push;

    if chunks.len() == 0 {
        assert(chunks.map_values(|c: Seq<Keyed>| c[0]) =~= Seq::<Keyed>::empty());
        assert(run_heads(items) =~= Seq::<Keyed>::empty());
    } else {
        let front = chunks.drop_last();
        let g = chunks.last();
        assert(chunks =~= front.push(g));
        let a = front.flatten();
        assert(items == a + g);
        assert(is_run_split(a, front)) by {
            assert forall|i: int| 0 < i < front.len() implies #[trigger] front[i][0].1
                != front[i - 1][0].1 by {
                assert(front[i] == chunks[i]);
                assert(front[i - 1] == chunks[i - 1]);
            }
            assert forall|i: int, j: int|
                0 <= i < front.len() && 0 <= j < front[i].len() implies #[trigger] front[i][j].1
                == front[i][0].1 by {
                assert(front[i] == chunks[i]);
            }
            assert forall|i: int| 0 <= i < front.len() implies #[trigger] front[i].len() > 0 by {
                assert(front[i] == chunks[i]);
            }
        }
        lemma_split_heads(a, front);
        assert forall|j: int| 0 <= j < g.len() implies #[trigger] g[j].1 == g[0].1 by {
            assert(chunks[chunks.len() - 1][j].1 == chunks[chunks.len() - 1][0].1);
        }
        assert(g.len() > 0) by {
            assert(chunks[chunks.len() - 1].len() > 0);
        }
        if front.len() > 0 {
            let p = front.last();
            assert(front =~= front.drop_last().push(p));
            assert(a == front.drop_last().flatten() + p);
            assert(p.len() > 0) by {
                assert(chunks[chunks.len() - 2].len() > 0);
            }
            assert(a.last() == p.last());
            assert(p.last().1 == p[0].1) by {
                assert(chunks[chunks.len() - 2][p.len() - 1].1 == chunks[chunks.len() - 2][0].1);
            }
            assert(g[0].1 != p[0].1) by {
                assert(chunks[chunks.len() - 1][0].1 != chunks[chunks.len() - 2][0].1);
            }
        }
        lemma_run_heads_append_run(a, g);
        assert(chunks.map_values(|c: Seq<Keyed>| c[0]) =~= front.map_values(
            |c: Seq<Keyed>| c[0],
        ).push(g[0]));
    }
}

/// Every run head is an element of the input, so what holds of every input
/// element holds of every head; and there is a head when there is input.
pub proof fn lemma_run_heads_all(k: Seq<Keyed>, p: spec_fn(Keyed) -> bool)
    requires
        forall|i: int| 0 <= i < k.len() ==> p(#[trigger] k[i]),
    ensures
        forall|i: int| 0 <= i < run_heads(k).len() ==> p(#[trigger] run_heads(k)[i]),
        run_heads(k).len() > 0 <==> k.len() > 0,
        k.len() > 0 ==> run_heads(k)[0] == k[0],
    decreases k.len(),
{
    if k.len() > 1 {
        let d = k.drop_last();
        assert forall|i: int| 0 <= i < d.len() implies p(#[trigger] d[i]) by {
            assert(d[i] == k[i]);
        }
        lemma_run_heads_all(d, p);
        assert(p(k[k.len() - 1]));
    }
}

/// The first element of each maximal run of equal class, in order.
pub fn collapse_runs(items: Vec<Keyed>) -> (r: Vec<Keyed>)
    ensures
        r@ == run_heads(items@),
{
    let ghost input = items@;
    let chunks = chunk_by_class(items);
    let ghost cv = chunk_views(chunks@);
    let mut r: Vec<Keyed> = Vec::new();
    let n = chunks.len();
    let mut i: usize = 0;
    while i < n
        invariant
            n == chunks.len(),
            cv == chunk_views(chunks@),
            is_run_split(input, cv),
            i <= n,
            r@ == cv.take(i as int).map_values(|c: Seq<Keyed>| c[0]),
        decreases n - i,
    {
        assert(cv[i as int] == chunks[i as int]@);
        assert(cv[i as int].len() > 0);
        let head = chunks[i][0];
        r.push(head);
        i = i + 1;
        assert(cv.take(i as int) =~= cv.take(i - 1).push(cv[i - 1]));
        assert(r@ =~= cv.take(i as int).map_values(|c: Seq<Keyed>| c[0]));
    }
    proof {
        assert(cv.take(n as int) =~= cv);
        lemma_split_heads(input, cv);
    }
    r
}

} // verus!
