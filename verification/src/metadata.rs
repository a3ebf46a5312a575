use vstd::prelude::*;

verus! {

/// The tag that was set for `name`, where a later pair with the same name
/// shadows an earlier one, as insertion into a map would.
pub open spec fn spec_lookup(pairs: Seq<(Seq<char>, Seq<char>)>, name: Seq<char>) -> Option<
    Seq<char>,
>
    decreases pairs.len(),
{
    if pairs.len() == 0 {
        None
    } else if pairs.last().0 == name {
        Some(pairs.last().1)
    } else {
        spec_lookup(pairs.drop_last(), name)
    }
}

/// The metadata tags of one transaction, as (name, value) pairs.
pub struct TxMetadata {
    pairs: Vec<(String, String)>,
}

impl View for TxMetadata {
    type V = Seq<(Seq<char>, Seq<char>)>;

    closed spec fn view(&self) -> Seq<(Seq<char>, Seq<char>)> {
        self.pairs@.map_values(|p: (String, String)| (p.0@, p.1@))
    }
}

impl TxMetadata {
    /// Collect tag pairs into transaction metadata, keeping their order.
    pub fn from_pairs(pairs: Vec<(String, String)>) -> (r: Self)
        ensures
            r@ == pairs@.map_values(|p: (String, String)| (p.0@, p.1@)),
    {
        TxMetadata { pairs }
    }

    /// Look a tag up by name; of several pairs with the same name the last wins.
    pub fn get_tag(&self, name: &str) -> (r: Option<&str>)
        ensures
            match r {
                Some(v) => spec_lookup(self@, name@) == Some(v@),
                None => spec_lookup(self@, name@) is None,
            },
    {
        let key = name.to_owned();
        let mut i: usize = self.pairs.len();
        proof {
            assert(self@.take(i as int) =~= self@);
        }
        while i > 0
            invariant
                i <= self.pairs.len(),
                key@ == name@,
                spec_lookup(self@, name@) == spec_lookup(self@.take(i as int), name@),
            decreases i,
        {
            proof {
                assert(self@.take(i as int).drop_last() =~= self@.take(i - 1));
                assert(self@.take(i as int).last() == self@[i - 1]);
            }
            i = i - 1;
            if self.pairs[i].0 == key {
                return Some(self.pairs[i].1.as_str());
            }
        }
        proof {
            assert(self@.take(0) =~= Seq::<(Seq<char>, Seq<char>)>::empty());
        }
        None
    }

    /// Whether the tags mark the transaction as a binary bundle of the
    /// supported bundle version.
    pub fn is_bundle(&self) -> (r: bool)
        ensures
            r == (spec_lookup(self@, "Bundle-Format"@) == Some("binary"@) && spec_lookup(
                self@,
                "Bundle-Version"@,
            ) == Some("2.0.0"@)),
    {
        let format_ok = match self.get_tag("Bundle-Format") {
            Some(v) => v.to_owned() == "binary".to_owned(),
            None => false,
        };
        let version_ok = match self.get_tag("Bundle-Version") {
            Some(v) => v.to_owned() == "2.0.0".to_owned(),
            None => false,
        };
        format_ok && version_ok
    }
}

} // verus!
