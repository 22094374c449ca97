//! The namespace of mounted paths.
//!
//! A [`MappedFS`] shows chosen real paths under display names and turns a path
//! inside that namespace into the real path it stands for. A path that climbs
//! with `..` is refused, so nothing outside the mounted trees can be named.

use vstd::prelude::*;
use vstd::set_lib::{lemma_int_range, lemma_len_subset, set_int_range};
use crate::fs::display_name::{display_name, lemma_display_names_differ, numbered_name};
use crate::fs::path::{
    byte_views, climbs, copy_bytes, file_name, is_absolute, is_parent_dir, is_step, join,
    join_path_steps, join_paths, join_steps, lemma_steps_are_steps, lemma_steps_of_join,
    lemma_steps_of_joined_steps, path_file_name, path_is_absolute, path_steps, paths_match,
    piece_is_parent_dir, same_bytes, same_path, steps, SEPARATOR,
};
use crate::fs::metadata::{describes, element_from_metadata, HostMetadata};
use crate::fs::{copy_element, element_views, ElementView, FSElement};

verus! {

/// Why the namespace refused a path.
#[derive(Debug, PartialEq, Eq, Clone)]
pub enum MappedFSError {
    /// The path does not exist in the mapped file system. A path that is to
    /// be added and ends in no name is refused with this too: there is
    /// nothing that it could be found under.
    PathNotFound(Vec<u8>),
    /// The path is not absolute. Only absolute paths can be added.
    PathNotAbsolute(Vec<u8>),
}

/// A path in the namespace, taken apart.
#[derive(Debug, PartialEq, Eq, Clone)]
pub enum ParsedPath {
    /// The namespace itself.
    Root,
    /// Something below a mounted path: the display name that selects the
    /// mount, and the relative path that leads on from there.
    Extended { root_element: Vec<u8>, extension: Vec<u8> },
}

/// What a path in the namespace means.
pub ghost enum Parsed {
    /// The path climbs with `..` and is refused.
    Illegal,
    /// The path takes no step: it is the namespace itself.
    Root,
    /// The first step selects a mount, the others lead on from there.
    Extended { root_element: Seq<u8>, extension: Seq<u8> },
}

/// The meaning of `path`: illegal if any step is `..`, the root if there is no
/// step, and otherwise its first step with the remaining ones joined.
pub open spec fn parse(path: Seq<u8>) -> Parsed {
    let taken = steps(path);
    if climbs(path) {
        Parsed::Illegal
    } else if taken.len() == 0 {
        Parsed::Root
    } else {
        Parsed::Extended { root_element: taken[0], extension: join_steps(taken.skip(1)) }
    }
}

/// Takes a path in the namespace apart, or refuses it with `PathNotFound` if
/// one of its steps is `..`.
pub fn parse_path(path: &[u8]) -> (parsed: Result<ParsedPath, MappedFSError>)
    ensures
        match parsed {
            Ok(ParsedPath::Root) => parse(path@) is Root,
            Ok(ParsedPath::Extended { root_element, extension }) => parse(path@)
                == (Parsed::Extended { root_element: root_element@, extension: extension@ }),
            Err(MappedFSError::PathNotFound(refused)) => parse(path@) is Illegal && refused@
                == path@,
            Err(MappedFSError::PathNotAbsolute(_)) => false,
        },
{
    let taken = path_steps(path);
    let mut i: usize = 0;
    while i < taken.len()
        invariant
            i <= taken.len(),
            byte_views(taken@) == steps(path@),
            forall|k: int| 0 <= k < i ==> !is_parent_dir(#[trigger] steps(path@)[k]),
        decreases taken.len() - i,
    {
        if piece_is_parent_dir(taken[i].as_slice()) {
            assert(is_parent_dir(steps(path@)[i as int]));
            return Err(MappedFSError::PathNotFound(copy_bytes(path)));
        }
        i += 1;
    }
    if taken.len() == 0 {
        Ok(ParsedPath::Root)
    } else {
        let root_element = copy_bytes(taken[0].as_slice());
        let extension = join_path_steps(&taken, 1);
        Ok(ParsedPath::Extended { root_element, extension })
    }
}

/// One mounted path: the name it is shown under and the real path.
#[derive(Debug, PartialEq, Eq, Clone)]
pub struct Mount {
    pub name: Vec<u8>,
    pub path: Vec<u8>,
}

/// The mathematical value of a [`Mount`].
pub ghost struct Mounted {
    pub name: Seq<u8>,
    pub path: Seq<u8>,
}

impl View for Mount {
    type V = Mounted;

    open spec fn view(&self) -> Mounted {
        Mounted { name: self.name@, path: self.path@ }
    }
}

/// The values of a sequence of mounts.
pub open spec fn mount_views(mounts: Seq<Mount>) -> Seq<Mounted> {
    mounts.map_values(|mount: Mount| mount@)
}

/// No display name is used twice.
pub open spec fn names_distinct(table: Seq<Mounted>) -> bool {
    forall|i: int, j: int| 0 <= i < j < table.len() ==> table[i].name != table[j].name
}

/// No mount is shown under `name`.
pub open spec fn vacant(table: Seq<Mounted>, name: Seq<u8>) -> bool {
    forall|i: int| 0 <= i < table.len() ==> (#[trigger] table[i]).name != name
}

/// `name` shows `path`.
pub open spec fn shows(table: Seq<Mounted>, name: Seq<u8>, path: Seq<u8>) -> bool {
    exists|i: int| 0 <= i < table.len() && (#[trigger] table[i]).name == name && same_path(
        table[i].path,
        path,
    )
}

/// `name` is taken by a path other than `path`.
pub open spec fn taken_by_other(table: Seq<Mounted>, name: Seq<u8>, path: Seq<u8>) -> bool {
    exists|i: int| 0 <= i < table.len() && (#[trigger] table[i]).name == name && !same_path(
        table[i].path,
        path,
    )
}

/// The real path shown under `name`, if there is one.
pub open spec fn mounted_path(table: Seq<Mounted>, name: Seq<u8>) -> Option<Seq<u8>> {
    if vacant(table, name) {
        None
    } else {
        Some(table[choose|i: int| 0 <= i < table.len() && (#[trigger] table[i]).name == name].path)
    }
}

/// Adding `path` settles at `number`: every smaller number gives a name that
/// another path has taken, and the name at `number` either shows `path`
/// already, so that nothing changes, or is free and becomes its name.
pub open spec fn adds_at(
    before: Seq<Mounted>,
    path: Seq<u8>,
    base: Seq<u8>,
    number: nat,
    after: Seq<Mounted>,
) -> bool {
    let name = display_name(base, number);
    &&& forall|j: nat| j < number ==> taken_by_other(before, #[trigger] display_name(base, j), path)
    &&& if shows(before, name, path) {
        after == before
    } else {
        vacant(before, name) && after == before.push(Mounted { name, path })
    }
}

/// What adding the absolute path `path` does to the table.
pub open spec fn adds(before: Seq<Mounted>, path: Seq<u8>, after: Seq<Mounted>) -> bool {
    &&& file_name(path) is Some
    &&& exists|number: nat| adds_at(before, path, file_name(path)->Some_0, number, after)
}

/// The real path that `path` stands for: the path mounted under its first
/// step, with the remaining steps appended. A path that climbs, the bare root
/// and a first step that names no mount stand for nothing.
pub open spec fn resolve(table: Seq<Mounted>, path: Seq<u8>) -> Option<Seq<u8>> {
    match parse(path) {
        Parsed::Extended { root_element, extension } => match mounted_path(table, root_element) {
            Some(target) => Some(join(target, extension)),
            None => None,
        },
        _ => None,
    }
}

/// The mounts that show a path other than `path`, as a predicate to filter
/// with.
pub open spec fn shows_other_than(path: Seq<u8>) -> spec_fn(Mounted) -> bool {
    |mount: Mounted| !same_path(mount.path, path)
}

/// The real paths of the mounts, in order.
pub open spec fn mounted_paths(table: Seq<Mounted>) -> Seq<Seq<u8>> {
    table.map_values(|mount: Mounted| mount.path)
}

/// The elements that were fetched, in order, without the failed fetches.
pub open spec fn fetched_elements(results: Seq<Option<FSElement>>) -> Seq<ElementView>
    decreases results.len(),
{
    if results.len() == 0 {
        Seq::<ElementView>::empty()
    } else {
        let before = fetched_elements(results.drop_last());
        match results.last() {
            Some(element) => before.push(element@),
            None => before,
        }
    }
}

/// `elements` is the listing of the root for `mounts`, given what the host
/// reported of each mounted path, `None` standing for a fetch that failed:
/// one element for every mount whose fetch succeeded, in the order of the
/// mounts, each under the display name of its mount. A mount for which
/// nothing was fetched counts as failed.
pub open spec fn root_elements(
    mounts: Seq<Mounted>,
    fetched: Seq<Option<HostMetadata>>,
    elements: Seq<ElementView>,
) -> bool
    decreases mounts.len(),
{
    if mounts.len() == 0 {
        elements.len() == 0
    } else {
        let last = mounts.len() - 1;
        if last < fetched.len() && fetched[last] is Some {
            &&& elements.len() > 0
            &&& describes(elements.last(), mounts.last().name, fetched[last]->Some_0)
            &&& root_elements(mounts.drop_last(), fetched, elements.drop_last())
        } else {
            root_elements(mounts.drop_last(), fetched, elements)
        }
    }
}

/// `element` stands for the mount at position `i`: the fetch for that mount
/// succeeded, and the element carries the mount's display name and what the
/// host reported of the mounted path.
pub open spec fn stands_for_mount(
    element: ElementView,
    mounts: Seq<Mounted>,
    fetched: Seq<Option<HostMetadata>>,
    i: int,
) -> bool {
    &&& 0 <= i < mounts.len()
    &&& i < fetched.len()
    &&& fetched[i] is Some
    &&& element.name == mounts[i].name
    &&& describes(element, mounts[i].name, fetched[i]->Some_0)
}

/// `element` stands for one of the mounts.
pub open spec fn stands_for_a_mount(
    element: ElementView,
    mounts: Seq<Mounted>,
    fetched: Seq<Option<HostMetadata>>,
) -> bool {
    exists|i: int| stands_for_mount(element, mounts, fetched, i)
}

/// Every element of a root listing carries the display name of a mount whose
/// fetch succeeded and stands for what the host reported of that mount, and
/// the listing holds no more elements than there are mounts.
pub proof fn lemma_root_elements_are_mounts(
    mounts: Seq<Mounted>,
    fetched: Seq<Option<HostMetadata>>,
    elements: Seq<ElementView>,
)
    requires
        root_elements(mounts, fetched, elements),
    ensures
        elements.len() <= mounts.len(),
        forall|k: int|
            0 <= k < elements.len() ==> stands_for_a_mount(#[trigger] elements[k], mounts, fetched),
    decreases mounts.len(),
{
    if mounts.len() > 0 {
        let last = mounts.len() - 1;
        let rest = mounts.drop_last();
        let taken = last < fetched.len() && fetched[last] is Some;
        let before = if taken {
            elements.drop_last()
        } else {
            elements
        };
        lemma_root_elements_are_mounts(rest, fetched, before);
        assert forall|k: int| 0 <= k < elements.len() implies stands_for_a_mount(
            #[trigger] elements[k],
            mounts,
            fetched,
        ) by {
            if taken && k == elements.len() - 1 {
                assert(stands_for_mount(elements[k], mounts, fetched, last));
            } else {
                assert(before[k] == elements[k]);
                assert(stands_for_a_mount(before[k], rest, fetched));
                let i = choose|i: int| stands_for_mount(before[k], rest, fetched, i);
                assert(rest[i] == mounts[i]);
                assert(stands_for_mount(elements[k], mounts, fetched, i));
            }
        }
    } else {
        assert(elements.len() == 0);
    }
}

/// What the host has to look at to list a path.
#[derive(Debug, PartialEq, Eq, Clone)]
pub enum ListPlan {
    /// The path is the root: fetch the metadata of every mounted path, each
    /// under its display name.
    Mounts(Vec<Mount>),
    /// The path leads into a mount: enumerate this real directory and fetch
    /// the metadata of each of its entries.
    Directory(Vec<u8>),
}

/// With distinct names, the path shown under the name of an entry is that
/// entry's path.
pub proof fn lemma_mounted_path(table: Seq<Mounted>, i: int)
    requires
        names_distinct(table),
        0 <= i < table.len(),
    ensures
        mounted_path(table, table[i].name) == Some(table[i].path),
{
    let name = table[i].name;
    let k = choose|k: int| 0 <= k < table.len() && (#[trigger] table[k]).name == name;
    assert(k == i);
}

/// A name cannot both show `path` and be taken by another path, since a name
/// stands for one mount only.
proof fn lemma_name_settled(table: Seq<Mounted>, name: Seq<u8>, path: Seq<u8>)
    requires
        names_distinct(table),
    ensures
        !(shows(table, name, path) && taken_by_other(table, name, path)),
        !(vacant(table, name) && taken_by_other(table, name, path)),
        !(vacant(table, name) && shows(table, name, path)),
{
    if shows(table, name, path) && taken_by_other(table, name, path) {
        let i = choose|i: int|
            0 <= i < table.len() && (#[trigger] table[i]).name == name && same_path(
                table[i].path,
                path,
            );
        let k = choose|k: int|
            0 <= k < table.len() && (#[trigger] table[k]).name == name && !same_path(
                table[k].path,
                path,
            );
        assert(i != k);
    }
}

/// Adding a path keeps the display names distinct.
pub proof fn lemma_add_keeps_names_distinct(
    before: Seq<Mounted>,
    path: Seq<u8>,
    after: Seq<Mounted>,
)
    requires
        names_distinct(before),
        adds(before, path, after),
    ensures
        names_distinct(after),
{
}

/// What adding the paths of `paths` one after the other does to the table.
pub open spec fn adds_all(before: Seq<Mounted>, paths: Seq<Seq<u8>>, after: Seq<Mounted>) -> bool
    decreases paths.len(),
{
    if paths.len() == 0 {
        after == before
    } else {
        exists|between: Seq<Mounted>|
            adds_all(before, paths.drop_last(), between) && #[trigger] adds(
                between,
                paths.last(),
                after,
            )
    }
}

/// Whatever paths are added to an empty table, and in whatever order, no
/// display name is used twice.
pub proof fn lemma_adds_keep_names_distinct(paths: Seq<Seq<u8>>, after: Seq<Mounted>)
    requires
        adds_all(Seq::<Mounted>::empty(), paths, after),
    ensures
        names_distinct(after),
    decreases paths.len(),
{
    if paths.len() > 0 {
        let between = choose|between: Seq<Mounted>|
            adds_all(Seq::<Mounted>::empty(), paths.drop_last(), between) && #[trigger] adds(
                between,
                paths.last(),
                after,
            );
        lemma_adds_keep_names_distinct(paths.drop_last(), between);
        lemma_add_keeps_names_distinct(between, paths.last(), after);
    }
}

/// Adding a path to a table has one outcome only.
pub proof fn lemma_add_determined(
    before: Seq<Mounted>,
    path: Seq<u8>,
    first: Seq<Mounted>,
    second: Seq<Mounted>,
)
    requires
        names_distinct(before),
        adds(before, path, first),
        adds(before, path, second),
    ensures
        first == second,
{
    let base = file_name(path)->Some_0;
    let m = choose|m: nat| adds_at(before, path, base, m, first);
    let n = choose|n: nat| adds_at(before, path, base, n, second);
    lemma_name_settled(before, display_name(base, m), path);
    lemma_name_settled(before, display_name(base, n), path);
    if m < n {
        assert(taken_by_other(before, display_name(base, m), path));
    } else if n < m {
        assert(taken_by_other(before, display_name(base, n), path));
    }
}

/// Adding the same path twice in a row changes nothing the second time: the
/// table, and with it the number of its entries, stays as the first addition
/// left it.
pub proof fn lemma_add_twice(
    before: Seq<Mounted>,
    path: Seq<u8>,
    once: Seq<Mounted>,
    twice: Seq<Mounted>,
)
    requires
        names_distinct(before),
        adds(before, path, once),
        adds(once, path, twice),
    ensures
        twice == once,
        twice.len() == once.len(),
{
    let base = file_name(path)->Some_0;
    let n = choose|n: nat| adds_at(before, path, base, n, once);
    let name = display_name(base, n);
    assert forall|j: nat| j < n implies taken_by_other(
        once,
        #[trigger] display_name(base, j),
        path,
    ) by {
        let taken = display_name(base, j);
        assert(taken_by_other(before, taken, path));
        let i = choose|i: int|
            0 <= i < before.len() && (#[trigger] before[i]).name == taken && !same_path(
                before[i].path,
                path,
            );
        assert(once[i] == before[i]);
    }
    if shows(before, name, path) {
        assert(once == before);
    } else {
        assert(once[once.len() - 1] == Mounted { name, path });
        assert(shows(once, name, path));
    }
    assert(adds_at(once, path, base, n, once));
    lemma_add_determined(once, path, once, twice);
}

/// Once a path is removed, no name shows it any more, and every mount of
/// another path is still there.
pub proof fn lemma_removed_path_is_gone(table: Seq<Mounted>, path: Seq<u8>)
    ensures
        forall|name: Seq<u8>| !shows(table.filter(shows_other_than(path)), name, path),
        forall|i: int|
            0 <= i < table.len() && !same_path((#[trigger] table[i]).path, path) ==> table.filter(
                shows_other_than(path),
            ).contains(table[i]),
        table.filter(shows_other_than(path)).len() <= table.len(),
{
    let kept = table.filter(shows_other_than(path));
    assert forall|name: Seq<u8>| !shows(kept, name, path) by {
        if shows(kept, name, path) {
            let i = choose|i: int|
                0 <= i < kept.len() && (#[trigger] kept[i]).name == name && same_path(
                    kept[i].path,
                    path,
                );
            table.lemma_filter_pred(shows_other_than(path), i);
        }
    }
    assert forall|i: int|
        0 <= i < table.len() && !same_path((#[trigger] table[i]).path, path) implies kept.contains(
        table[i],
    ) by {
        table.lemma_filter_contains(shows_other_than(path), i);
    }
    table.lemma_filter_len(shows_other_than(path));
}

/// A path that climbs with `..` stands for nothing, whatever is mounted.
pub proof fn lemma_climbing_path_stands_for_nothing(table: Seq<Mounted>, path: Seq<u8>)
    requires
        climbs(path),
    ensures
        resolve(table, path) is None,
{
}

/// What a path in the namespace stands for lies below the mount that its
/// first step selects: the real path takes the steps of the mounted path and
/// then the remaining steps of the path, none of which climbs. Where the
/// mounted path is absolute, so is the real path.
pub proof fn lemma_resolved_below_mount(table: Seq<Mounted>, path: Seq<u8>, target: Seq<u8>)
    requires
        resolve(table, path) == Some(target),
    ensures
        !climbs(path),
        steps(path).len() > 0,
        exists|i: int|
            0 <= i < table.len() && (#[trigger] table[i]).name == steps(path)[0] && steps(target)
                == steps(table[i].path) + steps(path).skip(1) && (is_absolute(table[i].path)
                ==> is_absolute(target)),
{
    let taken = steps(path);
    let extension = join_steps(taken.skip(1));
    let i = choose|i: int| 0 <= i < table.len() && (#[trigger] table[i]).name == taken[0];
    lemma_steps_are_steps(path);
    assert forall|k: int| 0 <= k < taken.skip(1).len() implies is_step(
        #[trigger] taken.skip(1)[k],
    ) by {
        assert(taken.skip(1)[k] == taken[k + 1]);
    }
    assert forall|k: int, j: int|
        0 <= k < taken.skip(1).len() && 0 <= j < taken.skip(1)[k].len() implies taken.skip(
        1,
    )[k][j] != SEPARATOR by {
        assert(taken.skip(1)[k] == taken[k + 1]);
    }
    lemma_steps_of_joined_steps(taken.skip(1));
    lemma_steps_of_join(table[i].path, extension);
}

/// The table of mounted paths.
pub struct MappedFS {
    entries: Vec<Mount>,
}

impl View for MappedFS {
    type V = Seq<Mounted>;

    /// The mounts in the order in which they were added.
    closed spec fn view(&self) -> Seq<Mounted> {
        mount_views(self.entries@)
    }
}

impl MappedFS {
    /// The table is well formed when no display name is used twice.
    pub open spec fn wf(&self) -> bool {
        names_distinct(self@)
    }

    /// An empty namespace.
    pub fn new() -> (fs: Self)
        ensures
            fs.wf(),
            fs@ == Seq::<Mounted>::empty(),
    {
        let fs = MappedFS { entries: Vec::new() };
        assert(fs@ =~= Seq::<Mounted>::empty());
        fs
    }

    /// The position of the entry shown under `name`.
    fn find(&self, name: &[u8]) -> (found: Option<usize>)
        ensures
            match found {
                Some(i) => i < self@.len() && self@[i as int].name == name@,
                None => vacant(self@, name@),
            },
    {
        let mut i: usize = 0;
        while i < self.entries.len()
            invariant
                i <= self.entries.len(),
                forall|k: int| 0 <= k < i ==> (#[trigger] self@[k]).name != name@,
            decreases self.entries.len() - i,
        {
            if same_bytes(self.entries[i].name.as_slice(), name) {
                return Some(i);
            }
            i += 1;
        }
        None
    }

    /// Add a new file or directory to the mapped filesystem. Does nothing if
    /// the element has already been added previously. If two different
    /// elements with the same name are added, a number will be appended to the
    /// name of the more recent element. For example, if two files named
    /// `test.txt` are added, the name of the second file within the virtual
    /// filesystem will be `test.txt (1)`.
    ///
    /// A path that is not absolute is refused with `PathNotAbsolute`. An
    /// absolute path that ends in no name, such as `/` or `/a/..`, cannot be
    /// shown under a name and is refused with `PathNotFound`. A refusal
    /// leaves the table as it was.
    pub fn add(&mut self, path: &[u8]) -> (added: Result<(), MappedFSError>)
        requires
            old(self).wf(),
        ensures
            final(self).wf(),
            match added {
                Ok(()) => is_absolute(path@) && adds(old(self)@, path@, final(self)@),
                Err(MappedFSError::PathNotAbsolute(refused)) => {
                    &&& !is_absolute(path@)
                    &&& refused@ == path@
                    &&& final(self)@ == old(self)@
                },
                Err(MappedFSError::PathNotFound(refused)) => {
                    &&& is_absolute(path@)
                    &&& file_name(path@) is None
                    &&& refused@ == path@
                    &&& final(self)@ == old(self)@
                },
            },
    {
        if !path_is_absolute(path) {
            return Err(MappedFSError::PathNotAbsolute(copy_bytes(path)));
        }
        let base = match path_file_name(path) {
            Some(base) => base,
            None => {
                return Err(MappedFSError::PathNotFound(copy_bytes(path)));
            },
        };
        let ghost table = self@;
        let ghost mut seen: Set<int> = Set::empty();
        let mut number: u64 = 0;
        loop
            invariant
                self@ == table,
                table == old(self)@,
                is_absolute(path@),
                names_distinct(table),
                file_name(path@) == Some(base@),
                seen.finite(),
                seen.len() == number,
                forall|i: int|
                    seen.contains(i) ==> 0 <= i < table.len() && exists|j: nat|
                        j < number && table[i].name == #[trigger] display_name(base@, j),
                forall|j: nat|
                    j < number ==> taken_by_other(table, #[trigger] display_name(base@, j), path@),
            decreases table.len() - number,
        {
            proof {
                lemma_int_range(0, table.len() as int);
                lemma_len_subset(seen, set_int_range(0, table.len() as int));
            }
            let count: usize = self.entries.len();
            let name = numbered_name(base.as_slice(), number);
            match self.find(name.as_slice()) {
                Some(i) => {
                    if paths_match(self.entries[i].path.as_slice(), path) {
                        assert(shows(table, name@, path@));
                        assert(adds_at(table, path@, base@, number as nat, table));
                        assert(file_name(path@)->Some_0 == base@);
                        return Ok(());
                    }
                    proof {
                        if seen.contains(i as int) {
                            let j = choose|j: nat|
                                j < number && table[i as int].name == #[trigger] display_name(
                                    base@,
                                    j,
                                );
                            lemma_display_names_differ(base@, j, number as nat);
                        }
                        seen = seen.insert(i as int);
                        lemma_len_subset(seen, set_int_range(0, table.len() as int));
                        assert(taken_by_other(table, display_name(base@, number as nat), path@));
                    }
                    number += 1;
                },
                None => {
                    let mount = Mount { name, path: copy_bytes(path) };
                    let ghost added = mount@;
                    self.entries.push(mount);
                    proof {
                        assert(self@ =~= table.push(added));
                        assert(!shows(table, added.name, path@));
                        assert(adds_at(table, path@, base@, number as nat, self@));
                        assert(file_name(path@)->Some_0 == base@);
                    }
                    return Ok(());
                },
            }
        }
    }

    /// Returns a list of the currently registered paths, in the order in
    /// which they were added.
    pub fn registered(&self) -> (paths: Vec<Vec<u8>>)
        ensures
            paths@.len() == self@.len(),
            byte_views(paths@) == mounted_paths(self@),
    {
        let mut paths: Vec<Vec<u8>> = Vec::with_capacity(self.entries.len());
        let mut i: usize = 0;
        while i < self.entries.len()
            invariant
                i <= self.entries.len(),
                paths.len() == i,
                forall|k: int| 0 <= k < i ==> paths@[k]@ == self.entries@[k].path@,
            decreases self.entries.len() - i,
        {
            paths.push(copy_bytes(self.entries[i].path.as_slice()));
            i += 1;
        }
        assert(byte_views(paths@) =~= mounted_paths(self@));
        paths
    }

    /// Remove a path from the mapped FS: every mount that shows it goes, the
    /// others stay in their order.
    pub fn remove(&mut self, path: &[u8])
        requires
            old(self).wf(),
        ensures
            final(self).wf(),
            final(self)@ == old(self)@.filter(shows_other_than(path@)),
    {
        let ghost table = self@;
        let mut kept: Vec<Mount> = Vec::new();
        let mut i: usize = 0;
        proof {
            assert(table.take(0) == Seq::<Mounted>::empty());
            reveal(Seq::filter);
        }
        while i < self.entries.len()
            invariant
                i <= self.entries.len(),
                self@ == table,
                names_distinct(table),
                mount_views(kept@) == table.take(i as int).filter(shows_other_than(path@)),
                names_distinct(mount_views(kept@)),
                forall|k: int|
                    0 <= k < kept.len() ==> exists|m: int|
                        0 <= m < i && (#[trigger] kept@[k]).name@ == table[m].name,
            decreases self.entries.len() - i,
        {
            let entry = &self.entries[i];
            let ghost before = kept@;
            proof {
                assert(table.take(i + 1) == table.take(i as int).push(table[i as int]));
                table.take(i as int).lemma_filter_push(table[i as int], shows_other_than(path@));
            }
            if !paths_match(entry.path.as_slice(), path) {
                kept.push(
                    Mount {
                        name: copy_bytes(entry.name.as_slice()),
                        path: copy_bytes(entry.path.as_slice()),
                    },
                );
                proof {
                    assert(mount_views(kept@) =~= mount_views(before).push(table[i as int]));
                    assert forall|a: int, b: int| 0 <= a < b < kept.len() implies mount_views(
                        kept@,
                    )[a].name != mount_views(kept@)[b].name by {
                        if b == kept.len() - 1 {
                            let m = choose|m: int|
                                0 <= m < i && (#[trigger] kept@[a]).name@ == table[m].name;
                            assert(table[m].name != table[i as int].name);
                        } else {
                            assert(mount_views(before)[a].name != mount_views(before)[b].name);
                        }
                    }
                    assert forall|k: int| 0 <= k < kept.len() implies exists|m: int|
                        0 <= m < i + 1 && (#[trigger] kept@[k]).name@ == table[m].name by {
                        if k == kept.len() - 1 {
                            assert(kept@[k].name@ == table[i as int].name);
                        } else {
                            let m = choose|m: int|
                                0 <= m < i && (#[trigger] before[k]).name@ == table[m].name;
                            assert(kept@[k].name@ == table[m].name);
                        }
                    }
                }
            }
            i += 1;
        }
        proof {
            assert(table.take(self.entries.len() as int) == table);
        }
        self.entries = kept;
    }

    /// Unmap a mapped path to obtain the path within the real file system.
    ///
    /// Fails with `PathNotFound` where the path climbs with `..`, where it is
    /// the bare root, and where its first step names no mount.
    pub fn unmap(&self, path: &[u8]) -> (unmapped: Result<Vec<u8>, MappedFSError>)
        requires
            self.wf(),
        ensures
            match unmapped {
                Ok(target) => resolve(self@, path@) == Some(target@),
                Err(MappedFSError::PathNotFound(refused)) => resolve(self@, path@) is None
                    && refused@ == path@,
                Err(MappedFSError::PathNotAbsolute(_)) => false,
            },
            climbs(path@) ==> unmapped is Err,
    {
        match parse_path(path) {
            Ok(ParsedPath::Extended { root_element, extension }) => {
                match self.find(root_element.as_slice()) {
                    Some(i) => {
                        proof {
                            lemma_mounted_path(self@, i as int);
                        }
                        Ok(join_paths(self.entries[i].path.as_slice(), extension.as_slice()))
                    },
                    None => Err(MappedFSError::PathNotFound(copy_bytes(path))),
                }
            },
            Ok(ParsedPath::Root) => Err(MappedFSError::PathNotFound(copy_bytes(path))),
            Err(refusal) => Err(refusal),
        }
    }

    /// The first half of listing the elements at `path`: what the host has to
    /// look at. For the root these are all mounts; for a path into a mount it
    /// is the real directory that the path stands for. What the host found is
    /// then made into the listing by [`root_listing`] for the mounts and by
    /// [`finish_list`] for a directory.
    ///
    /// Fails with `PathNotFound` where the path climbs with `..` or its first
    /// step names no mount.
    pub fn list(&self, path: &[u8]) -> (plan: Result<ListPlan, MappedFSError>)
        requires
            self.wf(),
        ensures
            match plan {
                Ok(ListPlan::Mounts(mounts)) => parse(path@) is Root && mount_views(mounts@)
                    == self@,
                Ok(ListPlan::Directory(directory)) => parse(path@) is Extended && resolve(
                    self@,
                    path@,
                ) == Some(directory@),
                Err(MappedFSError::PathNotFound(refused)) => !(parse(path@) is Root) && resolve(
                    self@,
                    path@,
                ) is None && refused@ == path@,
                Err(MappedFSError::PathNotAbsolute(_)) => false,
            },
    {
        match parse_path(path) {
            Ok(ParsedPath::Root) => {
                let mut mounts: Vec<Mount> = Vec::with_capacity(self.entries.len());
                let mut i: usize = 0;
                while i < self.entries.len()
                    invariant
                        i <= self.entries.len(),
                        mounts.len() == i,
                        forall|k: int| 0 <= k < i ==> mounts@[k]@ == self.entries@[k]@,
                    decreases self.entries.len() - i,
                {
                    let entry = &self.entries[i];
                    mounts.push(
                        Mount {
                            name: copy_bytes(entry.name.as_slice()),
                            path: copy_bytes(entry.path.as_slice()),
                        },
                    );
                    i += 1;
                }
                assert(mount_views(mounts@) =~= self@);
                Ok(ListPlan::Mounts(mounts))
            },
            Ok(ParsedPath::Extended { root_element, extension }) => {
                match self.find(root_element.as_slice()) {
                    Some(i) => {
                        proof {
                            lemma_mounted_path(self@, i as int);
                        }
                        Ok(
                            ListPlan::Directory(
                                join_paths(
                                    self.entries[i].path.as_slice(),
                                    extension.as_slice(),
                                ),
                            ),
                        )
                    },
                    None => Err(MappedFSError::PathNotFound(copy_bytes(path))),
                }
            },
            Err(refusal) => Err(refusal),
        }
    }
}

/// The listing of the root: takes the mounts that [`MappedFS::list`] planned
/// and what the host reported of each mounted path, in the same order, `None`
/// standing for a fetch that failed. Every mount whose fetch succeeded gives
/// one element under the display name of the mount; the others are left out.
pub fn root_listing(mounts: &Vec<Mount>, fetched: &Vec<Option<HostMetadata>>) -> (elements: Vec<
    FSElement,
>)
    ensures
        root_elements(mount_views(mounts@), fetched@, element_views(elements@)),
{
    let mut elements: Vec<FSElement> = Vec::new();
    let mut i: usize = 0;
    let ghost table = mount_views(mounts@);
    proof {
        assert(table.take(0) == Seq::<Mounted>::empty());
    }
    while i < mounts.len()
        invariant
            i <= mounts.len(),
            table == mount_views(mounts@),
            root_elements(table.take(i as int), fetched@, element_views(elements@)),
        decreases mounts.len() - i,
    {
        let ghost before = element_views(elements@);
        proof {
            assert(table.take(i + 1).drop_last() == table.take(i as int));
            assert(table.take(i + 1).last() == table[i as int]);
        }
        if i < fetched.len() {
            match &fetched[i] {
                Some(reported) => {
                    let element = element_from_metadata(
                        copy_bytes(mounts[i].name.as_slice()),
                        reported.created,
                        reported.modified,
                        reported.size,
                        reported.is_file,
                    );
                    let ghost view = element@;
                    elements.push(element);
                    proof {
                        assert(element_views(elements@) =~= before.push(view));
                        assert(element_views(elements@).drop_last() == before);
                        assert(*reported == (HostMetadata {
                            created: reported.created,
                            modified: reported.modified,
                            size: reported.size,
                            is_file: reported.is_file,
                        }));
                    }
                },
                None => {},
            }
        }
        i += 1;
    }
    proof {
        assert(table.take(mounts.len() as int) == table);
    }
    elements
}

/// The second half of listing the elements at `path`: what the host found.
/// `outcome` is `None` where the host could not enumerate the directory, which
/// fails the listing with `PathNotFound`. Otherwise it holds one result for
/// each fetch of metadata, and the listing is made of those that succeeded.
pub fn finish_list(path: &[u8], outcome: Option<Vec<Option<FSElement>>>) -> (listing: Result<
    Vec<FSElement>,
    MappedFSError,
>)
    ensures
        match outcome {
            Some(results) => listing matches Ok(elements) && crate::fs::element_views(elements@)
                == fetched_elements(results@),
            None => listing matches Err(MappedFSError::PathNotFound(refused)) && refused@
                == path@,
        },
{
    match outcome {
        Some(results) => {
            let mut elements: Vec<FSElement> = Vec::new();
            let mut i: usize = 0;
            proof {
                assert(results@.take(0) == Seq::<Option<FSElement>>::empty());
            }
            while i < results.len()
                invariant
                    i <= results.len(),
                    crate::fs::element_views(elements@) == fetched_elements(
                        results@.take(i as int),
                    ),
                decreases results.len() - i,
            {
                let ghost before = elements@;
                proof {
                    assert(results@.take(i + 1).drop_last() == results@.take(i as int));
                }
                match &results[i] {
                    Some(element) => {
                        elements.push(copy_element(element));
                        assert(crate::fs::element_views(elements@)
                            =~= crate::fs::element_views(before).push(element@));
                    },
                    None => {},
                }
                i += 1;
            }
            proof {
                assert(results@.take(results.len() as int) == results@);
            }
            Ok(elements)
        },
        None => Err(MappedFSError::PathNotFound(copy_bytes(path))),
    }
}

} // verus!
