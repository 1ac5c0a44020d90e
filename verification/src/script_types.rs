use vstd::prelude::*;

use crate::text::str_eq;

verus! {

/// The script type a value is known to have, and for an enum value the
/// variant when it is known.
#[derive(Debug, PartialEq, Eq)]
pub struct ScriptTypeFact {
    pub type_path: String,
    pub enum_variant: Option<String>,
}

/// The mathematical value of a `ScriptTypeFact`.
pub struct ScriptFactModel {
    pub type_path: Seq<char>,
    pub enum_variant: Option<Seq<char>>,
}

impl View for ScriptTypeFact {
    type V = ScriptFactModel;

    open spec fn view(&self) -> ScriptFactModel {
        ScriptFactModel {
            type_path: self.type_path@,
            enum_variant: match self.enum_variant {
                Some(v) => Some(v@),
                None => None,
            },
        }
    }
}

pub open spec fn opt_fact_view(f: Option<ScriptTypeFact>) -> Option<ScriptFactModel> {
    match f {
        Some(f) => Some(f@),
        None => None,
    }
}

impl ScriptTypeFact {
    /// A fact naming a type, with no variant.
    pub fn new(type_path: String) -> (r: Self)
        ensures
            r@ == (ScriptFactModel { type_path: type_path@, enum_variant: None }),
    {
        ScriptTypeFact { type_path, enum_variant: None }
    }

    /// A fact naming an enum type and one of its variants.
    pub fn enum_variant(type_path: String, variant: String) -> (r: Self)
        ensures
            r@ == (ScriptFactModel { type_path: type_path@, enum_variant: Some(variant@) }),
    {
        ScriptTypeFact { type_path, enum_variant: Some(variant) }
    }

    /// A copy with the same model.
    pub fn duplicate(&self) -> (r: Self)
        ensures
            r@ == self@,
    {
        ScriptTypeFact {
            type_path: self.type_path.clone(),
            enum_variant: match &self.enum_variant {
                Some(v) => Some(v.clone()),
                None => None,
            },
        }
    }
}

/// The part of a path after its last `::` (the whole path when it has none).
pub open spec fn last_segment(s: Seq<char>) -> Seq<char>
    decreases s.len(),
{
    if s.len() < 2 {
        s
    } else if s[s.len() - 2] == ':' && s[s.len() - 1] == ':' {
        Seq::empty()
    } else {
        last_segment(s.drop_last()).push(s.last())
    }
}

proof fn lemma_last_segment_suffix(s: Seq<char>)
    ensures
        last_segment(s).len() <= s.len(),
        last_segment(s) == s.subrange(s.len() - last_segment(s).len(), s.len() as int),
    decreases s.len(),
{
    if s.len() >= 2 && !(s[s.len() - 2] == ':' && s[s.len() - 1] == ':') {
        lemma_last_segment_suffix(s.drop_last());
        let t = last_segment(s.drop_last());
        assert(last_segment(s) =~= s.subrange(s.len() - t.len() - 1, s.len() as int));
    } else if s.len() >= 2 {
        assert(s.subrange(s.len() as int, s.len() as int) =~= Seq::<char>::empty());
    } else {
        assert(s.subrange(0, s.len() as int) =~= s);
    }
}

/// The part of `s` after its last `::`.
pub fn last_path_segment(s: &str) -> (r: String)
    ensures
        r@ == last_segment(s@),
{
    let n = s.unicode_len();
    let mut end_start: usize = n;
    let mut i: usize = n;
    let ghost full = s@;
    let mut found = false;
    proof {
        assert(full.subrange(0, n as int) =~= full);
        assert(full.subrange(n as int, n as int) =~= Seq::<char>::empty());
        assert(last_segment(full) + Seq::<char>::empty() =~= last_segment(full));
    }
    while i >= 2 && !found
        invariant
            n == full.len(),
            full == s@,
            i <= n,
            !found ==> last_segment(full) == last_segment(full.subrange(0, i as int)) + full.subrange(i as int, n as int),
            found ==> last_segment(full) == full.subrange(i as int, n as int),
        decreases i + (if found { 0int } else { 1int }),
    {
        let a = s.get_char(i - 2);
        let b = s.get_char(i - 1);
        let ghost pre = full.subrange(0, i as int);
        proof {
            assert(pre.drop_last() =~= full.subrange(0, i - 1));
            assert(pre[pre.len() - 2] == a && pre[pre.len() - 1] == b);
        }
        if a == ':' && b == ':' {
            proof {
                assert(last_segment(pre) =~= Seq::<char>::empty());
                assert(Seq::<char>::empty() + full.subrange(i as int, n as int) =~= full.subrange(i as int, n as int));
            }
            found = true;
        } else {
            proof {
                assert(last_segment(pre) == last_segment(full.subrange(0, i - 1)).push(b));
                assert(last_segment(full.subrange(0, i - 1)).push(b) + full.subrange(i as int, n as int)
                    =~= last_segment(full.subrange(0, i - 1)) + full.subrange(i - 1, n as int));
            }
            i = i - 1;
        }
    }
    proof {
        if !found {
            let pre = full.subrange(0, i as int);
            assert(last_segment(pre) == pre);
            assert(pre + full.subrange(i as int, n as int) =~= full.subrange(0, n as int));
            assert(full.subrange(0, n as int) =~= full);
            assert(full.subrange(0, n as int) =~= full.subrange(0 as int, n as int));
        }
    }
    let start = if found { i } else { 0 };
    proof {
        if !found {
            assert(full.subrange(0, n as int) =~= full);
        }
    }
    let r = s.substring_char(start, n);
    r.to_string()
}

/// The script type a type hint names among the known type names: the name
/// equal to the hint, or else, for a hint of one segment, the one name whose
/// last segment it is (none when several are).
pub open spec fn hint_scan(
    names: Seq<Seq<char>>,
    hinted: Seq<char>,
    single_segment: bool,
    suffix_match: Option<Seq<char>>,
) -> Option<Seq<char>>
    decreases names.len(),
{
    if names.len() == 0 {
        suffix_match
    } else if names[0] == hinted {
        Some(names[0])
    } else if single_segment && last_segment(names[0]) == hinted {
        if suffix_match is Some {
            None
        } else {
            hint_scan(names.drop_first(), hinted, single_segment, Some(names[0]))
        }
    } else {
        hint_scan(names.drop_first(), hinted, single_segment, suffix_match)
    }
}

pub open spec fn string_views(s: Seq<String>) -> Seq<Seq<char>> {
    Seq::new(s.len(), |i: int| s[i]@)
}

/// The script type named by a type hint shown as `hinted`, among `type_names`.
pub fn type_hint_script_type(hinted: &str, single_segment: bool, type_names: &Vec<String>) -> (r: Option<String>)
    ensures
        match r {
            Some(t) => hint_scan(string_views(type_names@), hinted@, single_segment, None) == Some(t@),
            None => hint_scan(string_views(type_names@), hinted@, single_segment, None) is None,
        },
{
    let ghost names = string_views(type_names@);
    let mut suffix_match: Option<String> = None;
    let mut i: usize = 0;
    proof {
        assert(names.subrange(0, names.len() as int) =~= names);
    }
    while i < type_names.len()
        invariant
            names == string_views(type_names@),
            i <= type_names.len(),
            hint_scan(names, hinted@, single_segment, None) == hint_scan(
                names.subrange(i as int, names.len() as int),
                hinted@,
                single_segment,
                match suffix_match {
                    Some(s) => Some(s@),
                    None => None,
                },
            ),
        decreases type_names.len() - i,
    {
        let ghost rest = names.subrange(i as int, names.len() as int);
        proof {
            assert(rest.drop_first() =~= names.subrange(i + 1, names.len() as int));
            assert(rest[0] == type_names@[i as int]@);
        }
        let name = &type_names[i];
        if str_eq(name.as_str(), hinted) {
            return Some(name.clone());
        }
        if single_segment {
            let last = last_path_segment(name.as_str());
            if str_eq(last.as_str(), hinted) {
                if suffix_match.is_some() {
                    return None;
                }
                suffix_match = Some(name.clone());
            }
        }
        i = i + 1;
    }
    proof {
        assert(names.subrange(i as int, names.len() as int).len() == 0);
    }
    suffix_match
}

} // verus!
