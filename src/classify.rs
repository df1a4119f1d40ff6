//! Splitting the paths a run is given into files, counted directly, and
//! directories, to be walked.
use vstd::prelude::*;
use crate::error::RunError;
use crate::filter::strings_view;
use crate::traverse::EntryKind;

verus! {

/// Whether a path's kind is one a run can work on: a file or a directory.
/// `None` stands for a path whose metadata could not be read.
pub open spec fn is_resolved(kind: Option<EntryKind>) -> bool {
    kind == Some(EntryKind::File) || kind == Some(EntryKind::Dir)
}

/// The paths of `paths` whose kind is `kind`, in their order.
pub open spec fn paths_of_kind(
    paths: Seq<Seq<char>>,
    kinds: Seq<Option<EntryKind>>,
    kind: EntryKind,
) -> Seq<Seq<char>>
    decreases paths.len(),
{
    if paths.len() == 0 {
        Seq::empty()
    } else {
        let n = paths.len() - 1;
        let rest = paths_of_kind(paths.drop_last(), kinds.subrange(0, n), kind);
        if kinds[n] == Some(kind) {
            rest.push(paths[n])
        } else {
            rest
        }
    }
}

/// The paths of a run, split by kind.
pub struct Classified {
    /// The regular files, counted as they are, with no filter applied.
    pub files: Vec<String>,
    /// The directories, to be walked.
    pub dirs: Vec<String>,
}

/// Splits `paths` by their kinds (`kinds[i]` is the kind of `paths[i]`),
/// keeping the order of each part. The first path that is neither a file nor
/// a directory, or whose kind could not be read, fails the whole run.
pub fn classify_paths(paths: &Vec<String>, kinds: &Vec<Option<EntryKind>>) -> (r: Result<
    Classified,
    RunError,
>)
    requires
        paths@.len() == kinds@.len(),
    ensures
        r is Ok <==> forall|i: int| 0 <= i < kinds@.len() ==> is_resolved(#[trigger] kinds@[i]),
        r is Ok ==> strings_view(r->Ok_0.files@) == paths_of_kind(
            strings_view(paths@),
            kinds@,
            EntryKind::File,
        ) && strings_view(r->Ok_0.dirs@) == paths_of_kind(
            strings_view(paths@),
            kinds@,
            EntryKind::Dir,
        ),
        r is Err ==> exists|i: int|
            0 <= i < kinds@.len() && !is_resolved(#[trigger] kinds@[i]) && (forall|j: int|
                0 <= j < i ==> is_resolved(kinds@[j])) && r->Err_0 is PathResolution
                && r->Err_0->PathResolution_0@ == paths@[i]@,
{
    let ghost sv = strings_view(paths@);
    let mut files: Vec<String> = Vec::new();
    let mut dirs: Vec<String> = Vec::new();
    let mut i: usize = 0;
    while i < paths.len()
        invariant
            i <= paths@.len(),
            paths@.len() == kinds@.len(),
            sv == strings_view(paths@),
            forall|j: int| 0 <= j < i ==> is_resolved(#[trigger] kinds@[j]),
            strings_view(files@) == paths_of_kind(
                sv.subrange(0, i as int),
                kinds@.subrange(0, i as int),
                EntryKind::File,
            ),
            strings_view(dirs@) == paths_of_kind(
                sv.subrange(0, i as int),
                kinds@.subrange(0, i as int),
                EntryKind::Dir,
            ),
        decreases paths@.len() - i,
    {
        let ghost prefix = sv.subrange(0, i + 1);
        let ghost kprefix = kinds@.subrange(0, i + 1);
        assert(prefix.drop_last() =~= sv.subrange(0, i as int));
        assert(kprefix.subrange(0, i as int) =~= kinds@.subrange(0, i as int));
        assert(prefix[i as int] == paths@[i as int]@);
        match kinds[i] {
            Some(EntryKind::File) => {
                let ghost before = files@;
                files.push(paths[i].clone());
                assert(strings_view(files@) =~= strings_view(before).push(paths@[i as int]@));
            },
            Some(EntryKind::Dir) => {
                let ghost before = dirs@;
                dirs.push(paths[i].clone());
                assert(strings_view(dirs@) =~= strings_view(before).push(paths@[i as int]@));
            },
            _ => {
                return Err(RunError::PathResolution(paths[i].clone()));
            },
        }
        i = i + 1;
    }
    assert(sv.subrange(0, i as int) =~= sv);
    assert(kinds@.subrange(0, i as int) =~= kinds@);
    Ok(Classified { files, dirs })
}

} // verus!
