//! The extension filter: which file names a walk counts.
use vstd::prelude::*;

verus! {

/// Whether `name` ends with `suffix`.
pub open spec fn has_suffix(name: Seq<char>, suffix: Seq<char>) -> bool {
    &&& suffix.len() <= name.len()
    &&& name.subrange(name.len() - suffix.len(), name.len() as int) == suffix
}

/// Whether `name` ends with one of `suffixes`.
pub open spec fn ends_with_any(suffixes: Seq<Seq<char>>, name: Seq<char>) -> bool {
    exists|i: int| 0 <= i < suffixes.len() && has_suffix(name, #[trigger] suffixes[i])
}

/// Whether a filter with the given suffixes admits `name`. No suffixes at
/// all (`None`) admits every name.
pub open spec fn admits(suffixes: Option<Seq<Seq<char>>>, name: Seq<char>) -> bool {
    match suffixes {
        None => true,
        Some(s) => ends_with_any(s, name),
    }
}

/// The suffixes a filter built from `extensions` holds. An empty list is
/// taken as no filter at all, so that it admits every name.
pub open spec fn filter_of(extensions: Option<Seq<Seq<char>>>) -> Option<Seq<Seq<char>>> {
    match extensions {
        Some(s) => if s.len() == 0 { None } else { Some(s) },
        None => None,
    }
}

/// The strings of `v`, as character sequences.
pub open spec fn strings_view(v: Seq<String>) -> Seq<Seq<char>> {
    v.map_values(|s: String| s@)
}

/// Whether `name` ends with `suffix`.
pub fn ends_with(name: &str, suffix: &str) -> (r: bool)
    ensures
        r == has_suffix(name@, suffix@),
{
    let n = name.unicode_len();
    let k = suffix.unicode_len();
    if k > n {
        return false;
    }
    let off = n - k;
    let mut i: usize = 0;
    while i < k
        invariant
            i <= k,
            k <= n,
            off == n - k,
            n == name@.len(),
            k == suffix@.len(),
            forall|j: int| 0 <= j < i ==> name@[off + j] == suffix@[j],
        decreases k - i,
    {
        if name.get_char(off + i) != suffix.get_char(i) {
            assert(name@.subrange(off as int, n as int)[i as int] != suffix@[i as int]);
            return false;
        }
        i = i + 1;
    }
    assert(name@.subrange(off as int, n as int) =~= suffix@);
    true
}

/// Selects the file names a walk counts: those that end with one of the
/// configured suffixes, or every name where none are configured.
pub struct ExtensionFilter {
    suffixes: Option<Vec<String>>,
}

impl View for ExtensionFilter {
    type V = Option<Seq<Seq<char>>>;

    /// The configured suffixes; `None` where every name is admitted.
    closed spec fn view(&self) -> Option<Seq<Seq<char>>> {
        match self.suffixes {
            Some(v) => Some(strings_view(v@)),
            None => None,
        }
    }
}

impl ExtensionFilter {

    /// A filter for the given suffixes; `None` or an empty list admits every name.
    pub fn new(extensions: Option<Vec<String>>) -> (r: ExtensionFilter)
        ensures
            r@ == filter_of(
                match extensions {
                    Some(v) => Some(strings_view(v@)),
                    None => None,
                },
            ),
    {
        match extensions {
            Some(v) => {
                if v.len() == 0 {
                    ExtensionFilter { suffixes: None }
                } else {
                    ExtensionFilter { suffixes: Some(v) }
                }
            },
            None => ExtensionFilter { suffixes: None },
        }
    }

    /// Whether the filter admits a file of the given name.
    pub fn accepts(&self, name: &str) -> (r: bool)
        ensures
            r == admits(self@, name@),
    {
        match &self.suffixes {
            None => true,
            Some(v) => {
                let mut i: usize = 0;
                while i < v.len()
                    invariant
                        i <= v@.len(),
                        self@ == Some(strings_view(v@)),
                        forall|j: int| 0 <= j < i ==> !has_suffix(name@, #[trigger] v@[j]@),
                    decreases v@.len() - i,
                {
                    if ends_with(name, v[i].as_str()) {
                        assert(strings_view(v@)[i as int] == v@[i as int]@);
                        assert(has_suffix(name@, strings_view(v@)[i as int]));
                        assert(ends_with_any(strings_view(v@), name@));
                        return true;
                    }
                    i = i + 1;
                }
                assert forall|j: int| 0 <= j < v@.len() implies !has_suffix(
                    name@,
                    #[trigger] strings_view(v@)[j],
                ) by {
                    assert(strings_view(v@)[j] == v@[j]@);
                }
                false
            },
        }
    }
}

/// An empty list of extensions filters nothing: it admits exactly the names
/// that no filter at all admits.
pub proof fn lemma_empty_extensions_admit_all(name: Seq<char>)
    ensures
        admits(filter_of(Some(Seq::<Seq<char>>::empty())), name) == admits(filter_of(None), name),
        admits(filter_of(Some(Seq::<Seq<char>>::empty())), name),
{
}

} // verus!
