use vstd::prelude::*;
use vstd::multiset::Multiset;
use crate::entries::{FileEntry, RankedList, models_of, sorted_desc};

verus! {

/// Insert a model into a ranking, after every entry at least as large:
/// ties keep their order of discovery.
pub open spec fn insert_desc(s: Seq<(Seq<char>, u64)>, e: (Seq<char>, u64)) -> Seq<
    (Seq<char>, u64),
>
    decreases s.len(),
{
    if s.len() == 0 {
        seq![e]
    } else if s[0].1 >= e.1 {
        seq![s[0]] + insert_desc(s.drop_first(), e)
    } else {
        seq![e] + s
    }
}

/// The stable descending sort of a sequence of models: entries in
/// non-increasing size order, equal sizes in their order of discovery.
pub open spec fn sort_spec(s: Seq<(Seq<char>, u64)>) -> Seq<(Seq<char>, u64)>
    decreases s.len(),
{
    if s.len() == 0 {
        Seq::empty()
    } else {
        insert_desc(sort_spec(s.drop_last()), s.last())
    }
}

/// The position where a new entry of size `x` is inserted: just before
/// the first entry strictly smaller than `x`.
pub open spec fn insert_pos(s: Seq<(Seq<char>, u64)>, x: u64) -> int
    decreases s.len(),
{
    if s.len() == 0 {
        0
    } else if s[0].1 >= x {
        1 + insert_pos(s.drop_first(), x)
    } else {
        0
    }
}

/// The insertion position is in bounds, every entry before it is at
/// least `x`, and the entry at it (if any) is smaller than `x`.
pub proof fn lemma_insert_pos_spec(s: Seq<(Seq<char>, u64)>, x: u64)
    ensures
        0 <= insert_pos(s, x) <= s.len(),
        forall|j: int| 0 <= j < insert_pos(s, x) ==> s[j].1 >= x,
        insert_pos(s, x) < s.len() ==> s[insert_pos(s, x)].1 < x,
    decreases s.len(),
{
    if s.len() > 0 && s[0].1 >= x {
        lemma_insert_pos_spec(s.drop_first(), x);
        assert forall|j: int| 0 <= j < insert_pos(s, x) implies s[j].1 >= x by {
            if j > 0 {
                assert(s.drop_first()[j - 1] == s[j]);
                assert(s.drop_first()[j - 1].1 >= x);
            }
        }
    }
}

/// Any index with the insertion position's properties is that position.
pub proof fn lemma_insert_pos_unique(s: Seq<(Seq<char>, u64)>, x: u64, k: int)
    requires
        0 <= k <= s.len(),
        forall|j: int| 0 <= j < k ==> s[j].1 >= x,
        k < s.len() ==> s[k].1 < x,
    ensures
        k == insert_pos(s, x),
{
    lemma_insert_pos_spec(s, x);
    let p = insert_pos(s, x);
    if k < p {
        assert(s[k].1 >= x);
    } else if p < k {
        assert(s[p].1 >= x);
    }
}

/// Inserting splits the sequence at the insertion position.
pub proof fn lemma_insert_desc_char(s: Seq<(Seq<char>, u64)>, e: (Seq<char>, u64))
    ensures
        insert_desc(s, e) == s.take(insert_pos(s, e.1)) + seq![e] + s.skip(insert_pos(s, e.1)),
        insert_desc(s, e).len() == s.len() + 1,
    decreases s.len(),
{
    let p = insert_pos(s, e.1);
    if s.len() == 0 {
        assert(insert_desc(s, e) =~= s.take(p) + seq![e] + s.skip(p));
    } else if s[0].1 >= e.1 {
        lemma_insert_desc_char(s.drop_first(), e);
        let r = s.drop_first();
        lemma_insert_pos_spec(s, e.1);
        lemma_insert_pos_spec(r, e.1);
        assert(seq![s[0]] + (r.take(p - 1) + seq![e] + r.skip(p - 1)) =~= s.take(p) + seq![e]
            + s.skip(p));
    } else {
        assert(insert_desc(s, e) =~= s.take(p) + seq![e] + s.skip(p));
    }
}

/// Inserting into a sorted ranking keeps it sorted.
pub proof fn lemma_insert_desc_sorted(s: Seq<(Seq<char>, u64)>, e: (Seq<char>, u64))
    requires
        sorted_desc(s),
    ensures
        sorted_desc(insert_desc(s, e)),
{
    let p = insert_pos(s, e.1);
    lemma_insert_pos_spec(s, e.1);
    lemma_insert_desc_char(s, e);
    let r = insert_desc(s, e);
    assert forall|i: int, j: int| 0 <= i <= j < r.len() implies r[i].1 >= r[j].1 by {
        if i < p {
            assert(r[i] == s[i]);
        } else if i == p {
            assert(r[i] == e);
        } else {
            assert(r[i] == s[i - 1]);
        }
        if j < p {
            assert(r[j] == s[j]);
        } else if j == p {
            assert(r[j] == e);
        } else {
            assert(r[j] == s[j - 1]);
        }
    }
}

/// The sorted ranking has the length of its input and is sorted.
pub proof fn lemma_sort_spec_shape(s: Seq<(Seq<char>, u64)>)
    ensures
        sort_spec(s).len() == s.len(),
        sorted_desc(sort_spec(s)),
    decreases s.len(),
{
    if s.len() > 0 {
        lemma_sort_spec_shape(s.drop_last());
        lemma_insert_desc_char(sort_spec(s.drop_last()), s.last());
        lemma_insert_desc_sorted(sort_spec(s.drop_last()), s.last());
    }
}

/// Inserting adds exactly the new entry to the ranking's contents.
pub proof fn lemma_insert_desc_multiset(s: Seq<(Seq<char>, u64)>, e: (Seq<char>, u64))
    ensures
        insert_desc(s, e).to_multiset() == s.to_multiset().insert(e),
{
    broadcast use vstd::seq_lib::group_to_multiset_ensures;

    let p = insert_pos(s, e.1);
    lemma_insert_pos_spec(s, e.1);
    lemma_insert_desc_char(s, e);
    vstd::seq_lib::lemma_multiset_commutative(s.take(p) + seq![e], s.skip(p));
    vstd::seq_lib::lemma_multiset_commutative(s.take(p), seq![e]);
    vstd::seq_lib::lemma_multiset_commutative(s.take(p), s.skip(p));
    assert(s.take(p) + s.skip(p) =~= s);
    assert(seq![e] =~= Seq::<(Seq<char>, u64)>::empty().push(e));
    assert(seq![e].to_multiset() =~= Multiset::<(Seq<char>, u64)>::empty().insert(e));
    assert(insert_desc(s, e).to_multiset() =~= s.to_multiset().insert(e));
}

/// The sorted ranking holds exactly the entries it was given: the stable
/// descending sort is a permutation of its input.
pub proof fn lemma_sort_spec_permutes(s: Seq<(Seq<char>, u64)>)
    ensures
        sort_spec(s).to_multiset() == s.to_multiset(),
    decreases s.len(),
{
    broadcast use vstd::seq_lib::group_to_multiset_ensures;

    if s.len() > 0 {
        lemma_sort_spec_permutes(s.drop_last());
        lemma_insert_desc_multiset(sort_spec(s.drop_last()), s.last());
        assert(s.drop_last().push(s.last()) =~= s);
    }
}

/// Rank the given entries: sort them by descending size (ties in order
/// of discovery) and keep at most the first `n`.
///
/// The result is exactly the first `min(n, files.len())` entries of the
/// stable descending sort of the input, so it is sorted, holds no more
/// than `n` entries, and holds fewer only when fewer files were given.
pub fn select_top_n(files: &Vec<FileEntry>, n: usize) -> (r: RankedList)
    ensures
        r.entries@.len() == if n <= files@.len() {
            n as int
        } else {
            files@.len() as int
        },
        r.model() == sort_spec(models_of(files@)).take(r.entries@.len() as int),
        r.wf(),
{
    let ghost m = models_of(files@);
    let mut sorted: Vec<FileEntry> = Vec::new();
    let mut i: usize = 0;
    while i < files.len()
        invariant
            0 <= i <= files@.len(),
            sorted@.len() == i,
            m == models_of(files@),
            models_of(sorted@) == sort_spec(m.take(i as int)),
        decreases files@.len() - i,
    {
        let e = files[i].clone();
        let ghost cur = models_of(sorted@);
        let mut j: usize = 0;
        while j < sorted.len() && sorted[j].size >= e.size
            invariant
                0 <= j <= sorted@.len(),
                cur == models_of(sorted@),
                forall|k: int| 0 <= k < j ==> cur[k].1 >= e.size,
            decreases sorted@.len() - j,
        {
            assert(cur[j as int].1 == sorted@[j as int].size);
            j = j + 1;
        }
        proof {
            assert(j < sorted@.len() ==> cur[j as int].1 < e.size);
            lemma_insert_pos_unique(cur, e.size, j as int);
            lemma_insert_desc_char(cur, e.model());
        }
        sorted.insert(j, e);
        proof {
            assert(models_of(sorted@) =~= cur.take(j as int) + seq![files@[i as int].model()]
                + cur.skip(j as int));
            assert(m.take(i + 1).drop_last() =~= m.take(i as int));
            assert(m.take(i + 1).last() == files@[i as int].model());
            assert(models_of(sorted@) == sort_spec(m.take(i + 1)));
        }
        i = i + 1;
    }
    proof {
        assert(m.take(files@.len() as int) =~= m);
    }
    sorted.truncate(n);
    proof {
        lemma_sort_spec_shape(m);
        if n <= files@.len() {
            assert(models_of(sorted@) =~= sort_spec(m).take(n as int));
        } else {
            assert(models_of(sorted@) =~= sort_spec(m).take(files@.len() as int));
        }
    }
    let r = RankedList { entries: sorted };
    proof {
        assert(sorted_desc(r.model()));
    }
    r
}

} // verus!
