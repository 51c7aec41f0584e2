//! A set of relay point codes kept as a strictly ascending list of strings.

use vstd::prelude::*;

use crate::text::{lemma_seq_lt_asymmetric, lemma_seq_lt_irreflexive, lemma_seq_lt_total,
    lemma_seq_lt_transitive, seq_lt, str_eq, str_lt};

verus! {

/// Every element is strictly before every later one.
pub open spec fn strictly_ascending(s: Seq<Seq<char>>) -> bool {
    forall|i: int, j: int| 0 <= i < j < s.len() ==> seq_lt(#[trigger] s[i], #[trigger] s[j])
}

/// The characters of each string of a list.
pub open spec fn string_views(v: Seq<String>) -> Seq<Seq<char>> {
    v.map_values(|s: String| s@)
}

/// A set of codes, kept like a `BTreeSet<String>`: each code once, in
/// ascending order.
pub struct CodeSet {
    codes: Vec<String>,
}

impl View for CodeSet {
    type V = Seq<Seq<char>>;

    closed spec fn view(&self) -> Seq<Seq<char>> {
        string_views(self.codes@)
    }
}

impl CodeSet {
    #[verifier::type_invariant]
    spec fn well_formed(self) -> bool {
        strictly_ascending(string_views(self.codes@))
    }

    /// The codes as a mathematical set.
    pub open spec fn set(self) -> Set<Seq<char>> {
        self@.to_set()
    }

    /// The empty set.
    pub fn new() -> (s: CodeSet)
        ensures
            s@ == Seq::<Seq<char>>::empty(),
    {
        let s = CodeSet { codes: Vec::new() };
        assert(s@ =~= Seq::<Seq<char>>::empty());
        s
    }

    /// Number of codes.
    pub fn len(&self) -> (n: usize)
        ensures
            n == self@.len(),
    {
        self.codes.len()
    }

    /// Whether there are no codes.
    pub fn is_empty(&self) -> (b: bool)
        ensures
            b == (self@.len() == 0),
    {
        self.codes.len() == 0
    }

    /// The code at position `i` in ascending order.
    pub fn get(&self, i: usize) -> (c: &String)
        requires
            i < self@.len(),
        ensures
            c@ == self@[i as int],
    {
        &self.codes[i]
    }

    /// Whether `code` is in the set.
    pub fn contains(&self, code: &str) -> (b: bool)
        ensures
            b == self@.contains(code@),
    {
        let n = self.codes.len();
        let mut i: usize = 0;
        while i < n
            invariant
                n == self.codes@.len(),
                n == self@.len(),
                i <= n,
                forall|k: int| 0 <= k < i ==> self@[k] != code@,
            decreases n - i,
        {
            if str_eq(self.codes[i].as_str(), code) {
                assert(self@[i as int] == code@);
                return true;
            }
            i = i + 1;
        }
        false
    }

    /// Adds `code`; the set is unchanged if it already holds it.
    pub fn insert(&mut self, code: String)
        ensures
            final(self).set() == old(self).set().insert(code@),
            strictly_ascending(final(self)@),
    {
        proof {
            use_type_invariant(&*self);
        }
        let ghost before = self@;
        let mut v: Vec<String> = Vec::new();
        std::mem::swap(&mut v, &mut self.codes);
        assert(string_views(v@) == before);
        let n = v.len();
        let mut p: usize = 0;
        while p < n && str_lt(v[p].as_str(), code.as_str())
            invariant
                n == v@.len(),
                string_views(v@) == before,
                strictly_ascending(before),
                p <= n,
                forall|k: int| 0 <= k < p ==> seq_lt(before[k], code@),
            decreases n - p,
        {
            p = p + 1;
        }
        if p < n && str_eq(v[p].as_str(), code.as_str()) {
            proof {
                assert(before.to_set().insert(code@) =~= before.to_set()) by {
                    assert(before.contains(code@)) by {
                        assert(before[p as int] == code@);
                    }
                }
            }
            self.codes = v;
            proof {
                use_type_invariant(&*self);
            }
            return;
        }
        proof {
            if p < n {
                lemma_seq_lt_total(code@, before[p as int]);
            }
        }
        v.insert(p, code);
        let ghost after = string_views(v@);
        proof {
            assert(after =~= before.insert(p as int, code@));
            assert forall|i: int, j: int| 0 <= i < j < after.len() implies seq_lt(
                #[trigger] after[i],
                #[trigger] after[j],
            ) by {
                if j < p {
                } else if j == p {
                } else if i < p {
                    lemma_seq_lt_transitive(after[i], code@, before[p as int]);
                    if j - 1 > p {
                        lemma_seq_lt_transitive(after[i], before[p as int], after[j]);
                    }
                } else if i == p {
                    if j - 1 > p {
                        lemma_seq_lt_transitive(code@, before[p as int], after[j]);
                    }
                } else {
                }
            }
            assert(after.to_set() =~= before.to_set().insert(code@)) by {
                assert forall|x: Seq<char>| after.to_set().contains(x) implies before.to_set().insert(
                    code@,
                ).contains(x) by {
                    let k = choose|k: int| 0 <= k < after.len() && after[k] == x;
                    if k < p {
                        assert(before[k] == x);
                    } else if k > p {
                        assert(before[k - 1] == x);
                    }
                }
                assert forall|x: Seq<char>| before.to_set().insert(code@).contains(x) implies after.to_set().contains(x) by {
                    if x == code@ {
                        assert(after[p as int] == x);
                    } else {
                        let k = choose|k: int| 0 <= k < before.len() && before[k] == x;
                        if k < p {
                            assert(after[k] == x);
                        } else {
                            assert(after[k + 1] == x);
                        }
                    }
                }
            }
        }
        self.codes = v;
        proof {
            use_type_invariant(&*self);
        }
    }

    /// The set of the given codes, each once, in ascending order.
    pub fn from_codes(codes: Vec<String>) -> (s: CodeSet)
        ensures
            s.set() == string_views(codes@).to_set(),
            strictly_ascending(s@),
    {
        let mut s = CodeSet::new();
        let n = codes.len();
        let mut i: usize = 0;
        while i < n
            invariant
                n == codes@.len(),
                i <= n,
                s.set() == string_views(codes@.take(i as int)).to_set(),
            decreases n - i,
        {
            let c = codes[i].clone();
            s.insert(c);
            proof {
                assert(string_views(codes@.take(i + 1)) =~= string_views(codes@.take(i as int)).push(
                    codes@[i as int]@,
                ));
                string_views(codes@.take(i as int)).lemma_push_to_set_commute(codes@[i as int]@);
            }
            i = i + 1;
        }
        assert(codes@.take(n as int) =~= codes@);
        proof {
            use_type_invariant(&s);
        }
        s
    }

    /// The codes in ascending order.
    pub fn to_vec(&self) -> (v: Vec<String>)
        ensures
            string_views(v@) == self@,
            strictly_ascending(self@),
    {
        proof {
            use_type_invariant(self);
        }
        let n = self.codes.len();
        let mut v: Vec<String> = Vec::new();
        let mut i: usize = 0;
        while i < n
            invariant
                n == self.codes@.len(),
                i <= n,
                string_views(v@) == string_views(self.codes@).take(i as int),
            decreases n - i,
        {
            let ghost old_v = v@;
            v.push(self.codes[i].clone());
            proof {
                old_v.lemma_push_map_commute(|s: String| s@, self.codes@[i as int]);
                assert(string_views(v@) =~= string_views(self.codes@).take(i + 1));
            }
            i = i + 1;
        }
        assert(string_views(self.codes@).take(n as int) =~= string_views(self.codes@));
        v
    }
}

/// A strictly ascending list is determined by the set of its elements.
pub proof fn lemma_ascending_unique(a: Seq<Seq<char>>, b: Seq<Seq<char>>)
    requires
        strictly_ascending(a),
        strictly_ascending(b),
        a.to_set() == b.to_set(),
    ensures
        a == b,
    decreases a.len(),
{
    if a.len() == 0 {
        if b.len() > 0 {
            assert(b.to_set().contains(b[0]));
        }
        assert(a =~= b);
    } else if b.len() == 0 {
        assert(a.to_set().contains(a[0]));
    } else {
        // the first elements are both the least element of the common set
        assert(b.to_set().contains(a[0]));
        assert(a.to_set().contains(b[0]));
        let ka = choose|k: int| 0 <= k < b.len() && b[k] == a[0];
        let kb = choose|k: int| 0 <= k < a.len() && a[k] == b[0];
        if a[0] != b[0] {
            assert(ka > 0 && kb > 0);
            lemma_seq_lt_asymmetric(a[0], a[kb]);
        }
        let a1 = a.drop_first();
        let b1 = b.drop_first();
        assert(a1.to_set() =~= b1.to_set()) by {
            assert forall|x: Seq<char>| a1.to_set().contains(x) implies b1.to_set().contains(x) by {
                let k = choose|k: int| 0 <= k < a1.len() && a1[k] == x;
                assert(a.to_set().contains(x));
                let m = choose|m: int| 0 <= m < b.len() && b[m] == x;
                if m == 0 {
                    lemma_seq_lt_irreflexive(x);
                    assert(seq_lt(a[0], a[k + 1]));
                }
                assert(b1[m - 1] == x);
            }
            assert forall|x: Seq<char>| b1.to_set().contains(x) implies a1.to_set().contains(x) by {
                let k = choose|k: int| 0 <= k < b1.len() && b1[k] == x;
                assert(b.to_set().contains(x));
                let m = choose|m: int| 0 <= m < a.len() && a[m] == x;
                if m == 0 {
                    lemma_seq_lt_irreflexive(x);
                    assert(seq_lt(b[0], b[k + 1]));
                }
                assert(a1[m - 1] == x);
            }
        }
        lemma_ascending_unique(a1, b1);
        assert(a =~= seq![a[0]] + a1);
        assert(b =~= seq![b[0]] + b1);
    }
}

} // verus!
