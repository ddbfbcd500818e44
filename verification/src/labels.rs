//! The label collection attached to a metric sample: an unordered mapping
//! from label name to label value, where a later pair with the same name
//! overwrites an earlier one.

use vstd::prelude::*;

verus! {

/// The mapping that a sequence of name/value pairs denotes: each pair is
/// entered in order, so the last pair with a given name wins.
pub open spec fn pairs_map(ps: Seq<(String, String)>) -> Map<Seq<char>, Seq<char>>
    decreases ps.len(),
{
    if ps.len() == 0 {
        Map::empty()
    } else {
        pairs_map(ps.drop_last()).insert(ps.last().0@, ps.last().1@)
    }
}

/// A label set. Viewed as a mapping from label name to label value; the
/// stored value is the once-unescaped text between the quotes of the pair
/// that produced it.
#[derive(Debug, Clone, PartialEq, Eq)]
pub struct LabelList {
    pairs: Vec<(String, String)>,
}

impl View for LabelList {
    type V = Map<Seq<char>, Seq<char>>;

    closed spec fn view(&self) -> Map<Seq<char>, Seq<char>> {
        pairs_map(self.pairs@)
    }
}

impl LabelList {
    /// An empty label set.
    pub fn new() -> (r: LabelList)
        ensures
            r@ == Map::<Seq<char>, Seq<char>>::empty(),
    {
        LabelList { pairs: Vec::new() }
    }

    /// Builds a label set from name/value pairs, later pairs overwriting
    /// earlier ones of the same name.
    pub fn from_pairs(pairs: Vec<(String, String)>) -> (r: LabelList)
        ensures
            r@ == pairs_map(pairs@),
    {
        LabelList { pairs }
    }

    /// Adds one pair, overwriting any earlier value under the same name.
    pub fn push_pair(&mut self, name: String, value: String)
        ensures
            final(self)@ == old(self)@.insert(name@, value@),
    {
        let ghost before = self.pairs@;
        self.pairs.push((name, value));
        proof {
            assert(self.pairs@.drop_last() =~= before);
        }
    }

    /// The raw text value stored under `name`, if present.
    pub fn get_string(&self, name: &str) -> (r: Option<String>)
        ensures
            r is Some <==> self@.contains_key(name@),
            (r matches Some(v) ==> self@[name@] == v@),
    {
        let key: String = name.to_owned();
        let n: usize = self.pairs.len();
        let mut i: usize = n;
        proof {
            assert(self.pairs@.take(n as int) =~= self.pairs@);
        }
        loop
            invariant
                i <= n,
                n == self.pairs@.len(),
                key@ == name@,
                self@.contains_key(name@) == pairs_map(self.pairs@.take(i as int)).contains_key(
                    name@,
                ),
                pairs_map(self.pairs@.take(i as int)).contains_key(name@) ==> self@[name@]
                    == pairs_map(self.pairs@.take(i as int))[name@],
            ensures
                i == 0,
                !self@.contains_key(name@),
            decreases i,
        {
            if i == 0 {
                proof {
                    assert(self.pairs@.take(0) =~= Seq::<(String, String)>::empty());
                }
                break ;
            }
            let ghost upto = self.pairs@.take(i as int);
            proof {
                assert(upto.drop_last() =~= self.pairs@.take((i - 1) as int));
                assert(upto.last() == self.pairs@[i - 1]);
            }
            let entry = &self.pairs[i - 1];
            if entry.0 == key {
                return Some(entry.1.clone());
            }
            i = i - 1;
        }
        None
    }
}

} // verus!
