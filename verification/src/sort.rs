//! Sorting by a string key in the order `String`'s `Ord` uses: character by
//! character, a proper prefix first.
use crate::text::chars_of;
use vstd::prelude::*;
use vstd::multiset::Multiset;
use vstd::seq_lib::{to_multiset_build, to_multiset_insert};

verus! {

/// `a` comes no later than `b` in lexicographic order of code points.
pub open spec fn lex_le(a: Seq<char>, b: Seq<char>) -> bool
    decreases a.len(),
{
    if a.len() == 0 {
        true
    } else if b.len() == 0 {
        false
    } else if (a[0] as u32) != (b[0] as u32) {
        (a[0] as u32) < (b[0] as u32)
    } else {
        lex_le(a.skip(1), b.skip(1))
    }
}

pub proof fn lemma_lex_total(a: Seq<char>, b: Seq<char>)
    ensures
        lex_le(a, b) || lex_le(b, a),
    decreases a.len(),
{
    if a.len() > 0 && b.len() > 0 && (a[0] as u32) == (b[0] as u32) {
        lemma_lex_total(a.skip(1), b.skip(1));
    }
}

pub proof fn lemma_lex_trans(a: Seq<char>, b: Seq<char>, c: Seq<char>)
    requires
        lex_le(a, b),
        lex_le(b, c),
    ensures
        lex_le(a, c),
    decreases a.len(),
{
    if a.len() > 0 && b.len() > 0 && c.len() > 0 && (a[0] as u32) == (b[0] as u32) && (b[0] as u32) == (c[0] as u32) {
        lemma_lex_trans(a.skip(1), b.skip(1), c.skip(1));
    }
}

/// Values sorted by a string key.
pub trait SortKey {
    spec fn sort_key(&self) -> Seq<char>;

    fn key_str(&self) -> (r: &str)
        ensures
            r@ == self.sort_key(),
    ;
}

impl SortKey for String {
    open spec fn sort_key(&self) -> Seq<char> {
        self@
    }

    fn key_str(&self) -> (r: &str) {
        self.as_str()
    }
}

/// The keys of `s` are in ascending order.
pub open spec fn sorted_by_key<T: SortKey>(s: Seq<T>) -> bool {
    forall|i: int, j: int| 0 <= i < j < s.len() ==> lex_le(#[trigger] s[i].sort_key(), #[trigger] s[j].sort_key())
}

/// Whether `a` comes no later than `b`.
pub fn str_le(a: &str, b: &str) -> (r: bool)
    ensures
        r == lex_le(a@, b@),
{
    let av = chars_of(a);
    let bv = chars_of(b);
    let mut i: usize = 0;
    assert(a@.skip(0) =~= a@);
    assert(b@.skip(0) =~= b@);
    while i < av.len() && i < bv.len()
        invariant
            av@ == a@,
            bv@ == b@,
            i <= av.len(),
            i <= bv.len(),
            lex_le(a@, b@) == lex_le(a@.skip(i as int), b@.skip(i as int)),
        decreases av.len() - i,
    {
        if (av[i] as u32) != (bv[i] as u32) {
            assert(a@.skip(i as int)[0] == av@[i as int]);
            assert(b@.skip(i as int)[0] == bv@[i as int]);
            return (av[i] as u32) < (bv[i] as u32);
        }
        assert(a@.skip(i as int).skip(1) =~= a@.skip(i + 1));
        assert(b@.skip(i as int).skip(1) =~= b@.skip(i + 1));
        i += 1;
    }
    i == av.len()
}

/// The values of `v` in ascending order of their keys.
pub fn sort_by_key<T: SortKey>(v: Vec<T>) -> (r: Vec<T>)
    ensures
        sorted_by_key(r@),
        r@.to_multiset() == v@.to_multiset(),
{
    let ghost orig = v@;
    let mut rest = v;
    let mut out: Vec<T> = Vec::new();
    proof {
        broadcast use vstd::seq_lib::group_to_multiset_ensures, vstd::multiset::lemma_multiset_empty_len;
        assert(out@ =~= Seq::<T>::empty());
        assert(out@.to_multiset() =~= Multiset::<T>::empty());
        assert(out@.to_multiset().add(rest@.to_multiset()) =~= orig.to_multiset());
    }
    while rest.len() > 0
        invariant
            sorted_by_key(out@),
            out@.to_multiset().add(rest@.to_multiset()) == orig.to_multiset(),
        decreases rest.len(),
    {
        let ghost before_rest = rest@;
        let x = rest.pop().unwrap();
        proof {
            assert(before_rest =~= rest@.push(x));
            to_multiset_build(rest@, x);
        }
        let mut pos: usize = 0;
        while pos < out.len() && str_le(out[pos].key_str(), x.key_str())
            invariant
                pos <= out.len(),
                forall|j: int| 0 <= j < pos ==> lex_le(#[trigger] out@[j].sort_key(), x.sort_key()),
            decreases out.len() - pos,
        {
            pos += 1;
        }
        let ghost before_out = out@;
        out.insert(pos, x);
        proof {
            to_multiset_insert(before_out, pos as int, x);
            assert(out@ == before_out.insert(pos as int, x));
            if pos < before_out.len() {
                lemma_lex_total(before_out[pos as int].sort_key(), x.sort_key());
            }
            assert forall|i: int, j: int| 0 <= i < j < out@.len() implies lex_le(#[trigger] out@[i].sort_key(), #[trigger] out@[j].sort_key()) by {
                if j < pos {
                    assert(out@[i] == before_out[i]);
                    assert(out@[j] == before_out[j]);
                } else if j == pos {
                    assert(out@[i] == before_out[i]);
                } else if i == pos {
                    assert(out@[j] == before_out[j - 1]);
                    if j - 1 > pos {
                        lemma_lex_trans(x.sort_key(), before_out[pos as int].sort_key(), before_out[j - 1].sort_key());
                    }
                } else if i < pos {
                    assert(out@[i] == before_out[i]);
                    assert(out@[j] == before_out[j - 1]);
                } else {
                    assert(out@[i] == before_out[i - 1]);
                    assert(out@[j] == before_out[j - 1]);
                }
            }
            assert(out@.to_multiset().add(rest@.to_multiset()) =~= orig.to_multiset());
        }
    }
    proof {
        broadcast use vstd::seq_lib::group_to_multiset_ensures, vstd::multiset::lemma_multiset_empty_len;
        assert(rest@ =~= Seq::<T>::empty());
        assert(rest@.to_multiset() =~= Multiset::<T>::empty());
        assert(out@.to_multiset() =~= orig.to_multiset());
    }
    out
}

/// Mapping two sequences with the same multiset gives sequences with the same multiset.
pub proof fn lemma_map_multiset<A, B>(a: Seq<A>, b: Seq<A>, f: spec_fn(A) -> B)
    requires
        a.to_multiset() == b.to_multiset(),
    ensures
        a.map_values(f).to_multiset() == b.map_values(f).to_multiset(),
    decreases a.len(),
{
    broadcast use vstd::seq_lib::group_to_multiset_ensures, vstd::multiset::group_multiset_axioms;

    if a.len() == 0 {
        assert(a.to_multiset().len() == 0);
        assert(b.to_multiset().len() == 0);
        assert(b.len() == 0);
        assert(a.map_values(f) =~= Seq::<B>::empty());
        assert(b.map_values(f) =~= Seq::<B>::empty());
    } else {
        let x = a.last();
        let a1 = a.drop_last();
        assert(a =~= a1.push(x));
        assert(a.to_multiset().count(x) > 0);
        assert(b.contains(x));
        let i = choose|i: int| 0 <= i < b.len() && b[i] == x;
        let b1 = b.remove(i);
        assert(a1.to_multiset() =~= b1.to_multiset());
        lemma_map_multiset(a1, b1, f);
        assert(a.map_values(f) =~= a1.map_values(f).push(f(x)));
        assert(b1.map_values(f) =~= b.map_values(f).remove(i));
        assert(b.map_values(f)[i] == f(x));
        assert(b.map_values(f).remove(i).to_multiset() =~= b.map_values(f).to_multiset().remove(f(x)));
        assert(b.map_values(f).to_multiset().count(f(x)) > 0) by {
            assert(b.map_values(f).contains(f(x)));
        }
        assert(a.map_values(f).to_multiset() =~= b.map_values(f).to_multiset());
    }
}

} // verus!
