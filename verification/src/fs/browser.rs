//! Cursors over a listing capability.
//!
//! A [`Browser`] owns a bounded table of cursors. Each cursor has a numeric
//! id, stands at a path and remembers the listing that was last read there.
//! Moving a cursor to another path forgets that listing at once; whether the
//! new path can be listed is only found out by the next read.

use vstd::prelude::*;
use vstd::std_specs::hash::group_hash_axioms;
use std::collections::HashMap;
use crate::fs::listing::{is_sorted_listing, sort_by_name, sorted_by_name};
use crate::fs::mapped_fs::parse;
use crate::fs::path::{copy_bytes, lemma_empty_path_takes_no_step, paths_match, same_path};
use crate::fs::{copy_elements, element_views, ElementView, FSElement, FS};

verus! {

/// What a client can ask of a browser.
#[derive(Debug, PartialEq, Eq, Clone)]
pub enum Request {
    /// Create a new cursor and return its id.
    Create,
    /// Destroy a cursor, freeing its resources.
    Destroy { id: u16 },
    /// Read the elements at the cursor's current position.
    Read { id: u16 },
    /// Get the current location (path) of the cursor.
    GetLocation { id: u16 },
    /// Move the cursor to a new location.
    Move { id: u16, path: Vec<u8> },
}

/// The answer to a [`Request`], one kind for each kind of request.
#[derive(Debug, PartialEq, Eq)]
pub enum Response {
    /// On success, the id of the new cursor.
    Create(Result<u16, CursorError>),
    /// `Ok(())` means that the cursor was destroyed.
    Destroy(Result<(), CursorError>),
    /// The elements that were read, in the order of their names.
    Read(Result<Vec<FSElement>, CursorError>),
    /// The cursor's path. Only fails if the cursor id is wrong.
    GetLocation(Result<Vec<u8>, CursorError>),
    /// Only fails if the cursor id is wrong.
    Move(Result<(), CursorError>),
}

/// Why a browser refused an operation.
#[derive(Debug, PartialEq, Eq, Clone)]
pub enum CursorError {
    /// A new cursor cannot be created, since the limit of cursors has already
    /// been reached.
    CursorLimitReached { limit: u16 },
    /// The specified cursor does not exist.
    UnknownCursor,
    /// The path is not readable.
    ReadError { path: Vec<u8> },
}

/// The mathematical value of a [`CursorError`].
pub ghost enum CursorFault {
    CursorLimitReached { limit: u16 },
    UnknownCursor,
    ReadError { path: Seq<u8> },
}

impl View for CursorError {
    type V = CursorFault;

    open spec fn view(&self) -> CursorFault {
        match self {
            CursorError::CursorLimitReached { limit } => CursorFault::CursorLimitReached {
                limit: *limit,
            },
            CursorError::UnknownCursor => CursorFault::UnknownCursor,
            CursorError::ReadError { path } => CursorFault::ReadError { path: path@ },
        }
    }
}

/// Where a cursor stands and what it remembers: its path, and the listing of
/// the last successful read at that path, if there was one since it came
/// there.
pub ghost struct CursorState {
    pub path: Seq<u8>,
    pub listing: Option<Seq<ElementView>>,
}

/// A cursor as it is created: at the root, which is the empty path, with
/// nothing remembered.
pub open spec fn fresh_cursor() -> CursorState {
    CursorState { path: Seq::<u8>::empty(), listing: None }
}

/// What creating a cursor does: at the limit it fails and changes nothing,
/// below the limit it puts a fresh cursor under an id that was not live.
pub open spec fn creates(
    before: Map<u16, CursorState>,
    limit: u16,
    created: Result<u16, CursorError>,
    after: Map<u16, CursorState>,
) -> bool {
    if before.len() >= limit {
        &&& created matches Err(refusal)
        &&& refusal@ == (CursorFault::CursorLimitReached { limit })
        &&& after == before
    } else {
        &&& created matches Ok(id)
        &&& !before.contains_key(id)
        &&& after == before.insert(id, fresh_cursor())
    }
}

/// What destroying the cursor `id` does: a live cursor goes, an id that is
/// not live is refused and nothing changes.
pub open spec fn destroys(
    before: Map<u16, CursorState>,
    id: u16,
    destroyed: Result<(), CursorError>,
    after: Map<u16, CursorState>,
) -> bool {
    if before.contains_key(id) {
        destroyed is Ok && after == before.remove(id)
    } else {
        &&& destroyed matches Err(refusal)
        &&& refusal@ == CursorFault::UnknownCursor
        &&& after == before
    }
}

/// What moving the cursor `id` to `path` does: a move to the path where the
/// cursor stands changes nothing, a move to another path puts the cursor
/// there and forgets its listing. An id that is not live is refused.
pub open spec fn moves(
    before: Map<u16, CursorState>,
    id: u16,
    path: Seq<u8>,
    moved: Result<(), CursorError>,
    after: Map<u16, CursorState>,
) -> bool {
    if !before.contains_key(id) {
        &&& moved matches Err(refusal)
        &&& refusal@ == CursorFault::UnknownCursor
        &&& after == before
    } else if same_path(before[id].path, path) {
        moved is Ok && after == before
    } else {
        moved is Ok && after == before.insert(id, CursorState { path, listing: None })
    }
}

/// What a read of the cursor `id` does once the listing capability has
/// answered with `outcome`, which is `None` where it failed. A failure is
/// reported with the cursor's path and changes nothing. A success is put in
/// the order of names, remembered by the cursor and returned. An id that is
/// not live is refused.
pub open spec fn records(
    before: Map<u16, CursorState>,
    id: u16,
    outcome: Option<Seq<ElementView>>,
    read: Result<Seq<ElementView>, CursorFault>,
    after: Map<u16, CursorState>,
) -> bool {
    if !before.contains_key(id) {
        read == Err::<Seq<ElementView>, CursorFault>(CursorFault::UnknownCursor) && after == before
    } else {
        match outcome {
            None => {
                &&& read == Err::<Seq<ElementView>, CursorFault>(
                    CursorFault::ReadError { path: before[id].path },
                )
                &&& after == before
            },
            Some(elements) => {
                &&& read matches Ok(sorted)
                &&& is_sorted_listing(elements, sorted)
                &&& after == before.insert(
                    id,
                    CursorState { path: before[id].path, listing: Some(sorted) },
                )
            },
        }
    }
}

/// The value of what a listing capability answered: its elements where it
/// succeeded, and `None` where it failed.
pub open spec fn answer_view<E>(answer: Result<Vec<FSElement>, E>) -> Option<Seq<ElementView>> {
    match answer {
        Ok(elements) => Some(element_views(elements@)),
        Err(_) => None,
    }
}

/// What a read of the cursor `id` through the capability `fs` does: for a
/// live cursor, `fs` is asked for the cursor's path, and what it answers is
/// recorded. An id that is not live is refused.
pub open spec fn reads<F: FS>(
    fs: F,
    before: Map<u16, CursorState>,
    id: u16,
    read: Result<Seq<ElementView>, CursorFault>,
    after: Map<u16, CursorState>,
) -> bool {
    if before.contains_key(id) {
        exists|answer: Result<Vec<FSElement>, F::Error>|
            #![trigger fs.lists(before[id].path, answer)]
            fs.lists(before[id].path, answer) && records(
                before,
                id,
                answer_view(answer),
                read,
                after,
            )
    } else {
        read == Err::<Seq<ElementView>, CursorFault>(CursorFault::UnknownCursor) && after == before
    }
}

/// What asking for the location of the cursor `id` gives: the path of a live
/// cursor, and a refusal for an id that is not live.
pub open spec fn locates(
    table: Map<u16, CursorState>,
    id: u16,
    located: Result<Seq<u8>, CursorFault>,
) -> bool {
    if table.contains_key(id) {
        located == Ok::<Seq<u8>, CursorFault>(table[id].path)
    } else {
        located == Err::<Seq<u8>, CursorFault>(CursorFault::UnknownCursor)
    }
}

/// What answering `request` does: the response is of the request's kind and
/// holds what the operation that it names returns.
pub open spec fn answers<F: FS>(
    fs: F,
    before: Map<u16, CursorState>,
    limit: u16,
    request: Request,
    response: Response,
    after: Map<u16, CursorState>,
) -> bool {
    match request {
        Request::Create => response matches Response::Create(created) && creates(
            before,
            limit,
            created,
            after,
        ),
        Request::Destroy { id } => response matches Response::Destroy(destroyed) && destroys(
            before,
            id,
            destroyed,
            after,
        ),
        Request::Read { id } => response matches Response::Read(read) && reads(
            fs,
            before,
            id,
            match read {
                Ok(listing) => Ok(element_views(listing@)),
                Err(refusal) => Err(refusal@),
            },
            after,
        ),
        Request::GetLocation { id } => {
            &&& after == before
            &&& response matches Response::GetLocation(located)
            &&& locates(
                before,
                id,
                match located {
                    Ok(path) => Ok(path@),
                    Err(refusal) => Err(refusal@),
                },
            )
        },
        Request::Move { id, path } => response matches Response::Move(moved) && moves(
            before,
            id,
            path@,
            moved,
            after,
        ),
    }
}

/// The value of the result of a read.
pub open spec fn read_view(read: Result<&Vec<FSElement>, CursorError>) -> Result<
    Seq<ElementView>,
    CursorFault,
> {
    match read {
        Ok(listing) => Ok(element_views(listing@)),
        Err(refusal) => Err(refusal@),
    }
}

/// The value of a listing that the capability handed over, `None` standing
/// for its failure.
pub open spec fn outcome_view(outcome: Option<Vec<FSElement>>) -> Option<Seq<ElementView>> {
    match outcome {
        Some(elements) => Some(element_views(elements@)),
        None => None,
    }
}

/// A cursor that has just been created stands at the root of the namespace,
/// and a read that follows its creation asks the capability for that root.
/// Where the capability answers with elements, the read gives them in the
/// order of their names; where it fails, the read fails for the root.
pub proof fn lemma_read_after_create<F: FS>(
    fs: F,
    before: Map<u16, CursorState>,
    limit: u16,
    created: Result<u16, CursorError>,
    between: Map<u16, CursorState>,
    read: Result<Seq<ElementView>, CursorFault>,
    after: Map<u16, CursorState>,
)
    requires
        created is Ok,
        creates(before, limit, created, between),
        reads(fs, between, created->Ok_0, read, after),
    ensures
        parse(fresh_cursor().path) is Root,
        exists|answer: Result<Vec<FSElement>, F::Error>|
            #![trigger fs.lists(fresh_cursor().path, answer)]
            fs.lists(fresh_cursor().path, answer) && match answer_view(answer) {
                Some(elements) => read matches Ok(sorted) && is_sorted_listing(elements, sorted),
                None => read == Err::<Seq<ElementView>, CursorFault>(
                    CursorFault::ReadError { path: fresh_cursor().path },
                ),
            },
{
    lemma_empty_path_takes_no_step();
    let id = created->Ok_0;
    let answer = choose|answer: Result<Vec<FSElement>, F::Error>|
        #![trigger fs.lists(between[id].path, answer)]
        fs.lists(between[id].path, answer) && records(
            between,
            id,
            answer_view(answer),
            read,
            after,
        );
    assert(fs.lists(fresh_cursor().path, answer));
}

/// A move to the path where the cursor stands changes nothing: the cursor
/// keeps its path and its listing, if it has one.
pub proof fn lemma_move_in_place(
    before: Map<u16, CursorState>,
    id: u16,
    path: Seq<u8>,
    moved: Result<(), CursorError>,
    after: Map<u16, CursorState>,
)
    requires
        before.contains_key(id),
        same_path(before[id].path, path),
        moves(before, id, path, moved, after),
    ensures
        moved is Ok,
        after == before,
        after[id].listing == before[id].listing,
{
}

/// A move to another path puts the cursor there and forgets its listing,
/// whatever the new path is. The other cursors stay as they are.
pub proof fn lemma_move_elsewhere(
    before: Map<u16, CursorState>,
    id: u16,
    path: Seq<u8>,
    moved: Result<(), CursorError>,
    after: Map<u16, CursorState>,
)
    requires
        before.contains_key(id),
        !same_path(before[id].path, path),
        moves(before, id, path, moved, after),
    ensures
        moved is Ok,
        after.contains_key(id),
        after[id].path == path,
        after[id].listing is None,
        forall|other: u16|
            other != id ==> after.contains_key(other) == before.contains_key(other),
        forall|other: u16|
            other != id && before.contains_key(other) ==> after[other] == before[other],
{
}

/// At the limit no cursor can be created, and where one of the live cursors
/// is destroyed, the next creation succeeds.
pub proof fn lemma_destroy_makes_room(
    before: Map<u16, CursorState>,
    limit: u16,
    refused: Result<u16, CursorError>,
    id: u16,
    destroyed: Result<(), CursorError>,
    between: Map<u16, CursorState>,
    created: Result<u16, CursorError>,
    after: Map<u16, CursorState>,
)
    requires
        before.dom().finite(),
        before.len() == limit,
        before.contains_key(id),
        creates(before, limit, refused, before),
        destroys(before, id, destroyed, between),
        creates(between, limit, created, after),
    ensures
        refused matches Err(refusal) && refusal@ == (CursorFault::CursorLimitReached { limit }),
        destroyed is Ok,
        created is Ok,
        after.len() == limit,
{
}

/// A cursor that was destroyed is not live any more, and every operation on
/// an id that is not live is refused with `UnknownCursor` and changes
/// nothing.
pub proof fn lemma_unknown_cursor_refused(
    table: Map<u16, CursorState>,
    id: u16,
    path: Seq<u8>,
    outcome: Option<Seq<ElementView>>,
    destroyed: Result<(), CursorError>,
    moved: Result<(), CursorError>,
    read: Result<Seq<ElementView>, CursorFault>,
    located: Result<Seq<u8>, CursorFault>,
    after: Map<u16, CursorState>,
)
    requires
        !table.contains_key(id),
    ensures
        destroys(table, id, destroyed, after) ==> after == table && (destroyed matches Err(refusal)
            && refusal@ == CursorFault::UnknownCursor),
        moves(table, id, path, moved, after) ==> after == table && (moved matches Err(refusal)
            && refusal@ == CursorFault::UnknownCursor),
        records(table, id, outcome, read, after) ==> after == table && read == Err::<
            Seq<ElementView>,
            CursorFault,
        >(CursorFault::UnknownCursor),
        locates(table, id, located) ==> located == Err::<Seq<u8>, CursorFault>(
            CursorFault::UnknownCursor,
        ),
{
}

/// Destroying a live cursor takes its id out of the table, so that the id
/// counts as unknown from then on.
pub proof fn lemma_destroyed_cursor_is_gone(
    before: Map<u16, CursorState>,
    id: u16,
    destroyed: Result<(), CursorError>,
    after: Map<u16, CursorState>,
)
    requires
        before.contains_key(id),
        destroys(before, id, destroyed, after),
    ensures
        destroyed is Ok,
        !after.contains_key(id),
{
}

/// A source of random numbers: `rand`'s small generator. The library draws
/// from it and knows nothing of its state.
#[verifier::external_type_specification]
#[verifier::external_body]
pub struct ExSmallRng(rand::rngs::SmallRng);

/// A uniform distribution over a range of integers: the sampler of `rand`
/// that its `Uniform` hands every call on to for an integer type. The library
/// makes one for the ids of cursors and hands it to every draw; it knows
/// nothing of what is inside.
#[verifier::external_type_specification]
#[verifier::external_body]
#[verifier::reject_recursive_types(X)]
pub struct ExUniformInt<X>(rand::distributions::uniform::UniformInt<X>);

/// Calls `SeedableRng::from_rng` of `rand` for a `SmallRng`, with the
/// generator of the operating system as the source: a generator seeded by
/// the system, or nothing where the system cannot supply a seed. Nothing is
/// claimed of the generator.
#[verifier::external_body]
fn system_seeded_rng() -> Option<rand::rngs::SmallRng> {
    <rand::rngs::SmallRng as rand::SeedableRng>::from_rng(rand::rngs::OsRng).ok()
}

/// Calls `SeedableRng::seed_from_u64` of `rand` for a `SmallRng`: the
/// generator that `seed` gives. Nothing is claimed of the generator.
#[verifier::external_body]
fn seeded_rng(seed: u64) -> rand::rngs::SmallRng {
    <rand::rngs::SmallRng as rand::SeedableRng>::seed_from_u64(seed)
}

/// Calls `UniformSampler::new_inclusive` of `rand` for `u16`, which refuses a
/// range whose low end lies above its high end. Nothing is claimed of the
/// distribution.
#[verifier::external_body]
fn uniform_ids(low: u16, high: u16) -> rand::distributions::uniform::UniformInt<u16>
    requires
        low <= high,
{
    rand::distributions::uniform::UniformSampler::new_inclusive(low, high)
}

/// Calls `UniformSampler::sample` of `rand` on the distribution of ids. The
/// result is random, so nothing is claimed of it: two draws may differ.
#[verifier::external_body]
fn draw_id(
    ids: &rand::distributions::uniform::UniformInt<u16>,
    rng: &mut rand::rngs::SmallRng,
) -> u16 {
    rand::distributions::uniform::UniformSampler::sample(ids, rng)
}

/// How many random ids are tried for a new cursor before the lowest free id
/// is taken instead.
pub const MAX_ID_DRAWS: u32 = 64;

/// The seed of the generator of ids where the operating system cannot
/// supply one.
pub const FALLBACK_SEED: u64 = 0;

struct Cursor {
    path: Vec<u8>,
    state: Option<Vec<FSElement>>,
}

impl View for Cursor {
    type V = CursorState;

    closed spec fn view(&self) -> CursorState {
        CursorState {
            path: self.path@,
            listing: match self.state {
                Some(elements) => Some(element_views(elements@)),
                None => None,
            },
        }
    }
}

/// The cursors of one client over a listing capability.
pub struct Browser<F> {
    cursors: HashMap<u16, Cursor>,
    cursor_limit: u16,
    cursor_id_rng: rand::rngs::SmallRng,
    cursor_id_uniform: rand::distributions::uniform::UniformInt<u16>,
    fs: F,
}

/// A set of ids that holds every id below `n` has at least `n` members.
proof fn lemma_ids_below(ids: Set<u16>, n: nat)
    requires
        ids.finite(),
        n <= 65536,
        forall|id: u16| id < n ==> ids.contains(id),
    ensures
        n <= ids.len(),
    decreases n,
{
    if n > 0 {
        let top = (n - 1) as u16;
        lemma_ids_below(ids.remove(top), (n - 1) as nat);
    }
}

impl<F: FS> Browser<F> {
    /// The live cursors by id.
    pub closed spec fn cursors(&self) -> Map<u16, CursorState> {
        Map::new(|id: u16| self.cursors@.contains_key(id), |id: u16| self.cursors@[id]@)
    }

    /// The greatest number of cursors that may be live at once.
    pub closed spec fn limit(&self) -> u16 {
        self.cursor_limit
    }

    /// The listing capability that the browser reads through.
    pub closed spec fn capability(&self) -> F {
        self.fs
    }

    /// A browser is well formed when its cursors are finitely many and no
    /// more than its limit allows.
    pub open spec fn wf(&self) -> bool {
        self.cursors().dom().finite() && self.cursors().len() <= self.limit()
    }

    /// The cursors are finitely many and correspond to the table.
    proof fn lemma_cursors(&self)
        ensures
            self.cursors().dom() == self.cursors@.dom(),
            self.cursors().dom().finite(),
            self.cursors().len() == self.cursors@.len(),
    {
        broadcast use group_hash_axioms;

        assert(self.cursors().dom() =~= self.cursors@.dom());
    }

    /// A browser without cursors that allows `cursor_limit` of them. The
    /// generator of its ids is seeded by the operating system, and with
    /// [`FALLBACK_SEED`] where the system cannot supply a seed.
    pub fn new(cursor_limit: u16, fs: F) -> (browser: Self)
        ensures
            browser.wf(),
            browser.cursors() == Map::<u16, CursorState>::empty(),
            browser.limit() == cursor_limit,
            browser.capability() == fs,
    {
        let cursor_id_rng = match system_seeded_rng() {
            Some(rng) => rng,
            None => seeded_rng(FALLBACK_SEED),
        };
        let browser = Browser {
            cursors: HashMap::new(),
            cursor_limit,
            cursor_id_rng,
            cursor_id_uniform: uniform_ids(0, u16::MAX),
            fs,
        };
        assert(browser.cursors() =~= Map::<u16, CursorState>::empty());
        browser
    }

    /// Creates a cursor under the id `id`, if the limit allows one more and
    /// the id is free. Returns whether the cursor was created.
    pub fn create_cursor_with(&mut self, id: u16) -> (created: Result<bool, CursorError>)
        requires
            old(self).wf(),
        ensures
            final(self).wf(),
            final(self).limit() == old(self).limit(),
            final(self).capability() == old(self).capability(),
            old(self).cursors().len() >= old(self).limit() ==> {
                &&& created matches Err(refusal)
                &&& refusal@ == (CursorFault::CursorLimitReached { limit: old(self).limit() })
                &&& final(self).cursors() == old(self).cursors()
            },
            old(self).cursors().len() < old(self).limit() ==> {
                &&& created == Ok::<bool, CursorError>(!old(self).cursors().contains_key(id))
                &&& final(self).cursors() == if old(self).cursors().contains_key(id) {
                    old(self).cursors()
                } else {
                    old(self).cursors().insert(id, fresh_cursor())
                }
            },
    {
        broadcast use group_hash_axioms;

        proof {
            self.lemma_cursors();
        }
        if self.cursors.len() >= self.cursor_limit as usize {
            return Err(CursorError::CursorLimitReached { limit: self.cursor_limit });
        }
        if self.cursors.contains_key(&id) {
            return Ok(false);
        }
        self.cursors.insert(id, Cursor { path: Vec::new(), state: None });
        assert(self.cursors() =~= old(self).cursors().insert(id, fresh_cursor()));
        Ok(true)
    }

    /// Creates a cursor at the root and returns its id.
    ///
    /// Fails with `CursorLimitReached` where as many cursors are live as the
    /// limit allows. The id is drawn at random until a free one is found; if
    /// [`MAX_ID_DRAWS`] draws in a row hit ids that are taken, the lowest free
    /// id is used.
    pub fn create_cursor(&mut self) -> (created: Result<u16, CursorError>)
        requires
            old(self).wf(),
        ensures
            final(self).wf(),
            final(self).limit() == old(self).limit(),
            final(self).capability() == old(self).capability(),
            creates(old(self).cursors(), old(self).limit(), created, final(self).cursors()),
    {
        proof {
            self.lemma_cursors();
        }
        if self.cursors.len() >= self.cursor_limit as usize {
            return Err(CursorError::CursorLimitReached { limit: self.cursor_limit });
        }
        let mut draws: u32 = 0;
        while draws < MAX_ID_DRAWS
            invariant
                self.wf(),
                self.cursors() == old(self).cursors(),
                self.limit() == old(self).limit(),
                self.capability() == old(self).capability(),
                self.cursors().len() < self.limit(),
            decreases MAX_ID_DRAWS - draws,
        {
            let id = draw_id(&self.cursor_id_uniform, &mut self.cursor_id_rng);
            match self.create_cursor_with(id) {
                Ok(true) => {
                    return Ok(id);
                },
                Ok(false) => {},
                Err(refusal) => {
                    return Err(refusal);
                },
            }
            draws += 1;
        }
        let mut id: u16 = 0;
        loop
            invariant
                self.wf(),
                self.cursors() == old(self).cursors(),
                self.limit() == old(self).limit(),
                self.capability() == old(self).capability(),
                self.cursors().len() < self.limit(),
                forall|lower: u16| lower < id ==> self.cursors().contains_key(lower),
            decreases u16::MAX - id,
        {
            match self.create_cursor_with(id) {
                Ok(true) => {
                    return Ok(id);
                },
                Ok(false) => {},
                Err(refusal) => {
                    return Err(refusal);
                },
            }
            proof {
                self.lemma_cursors();
                lemma_ids_below(self.cursors().dom(), (id + 1) as nat);
            }
            id += 1;
        }
    }

    /// Destroys the cursor `id`. Fails with `UnknownCursor` where no such
    /// cursor is live.
    pub fn destroy_cursor(&mut self, id: u16) -> (destroyed: Result<(), CursorError>)
        requires
            old(self).wf(),
        ensures
            final(self).wf(),
            final(self).limit() == old(self).limit(),
            final(self).capability() == old(self).capability(),
            destroys(old(self).cursors(), id, destroyed, final(self).cursors()),
    {
        broadcast use group_hash_axioms;

        match self.cursors.remove(&id) {
            Some(_) => {
                assert(self.cursors() =~= old(self).cursors().remove(id));
                Ok(())
            },
            None => {
                assert(self.cursors() =~= old(self).cursors());
                Err(CursorError::UnknownCursor)
            },
        }
    }

    /// The second half of a read of the cursor `id`: takes what the listing
    /// capability answered for the cursor's path, `None` standing for its
    /// failure.
    ///
    /// Fails with `UnknownCursor` where no such cursor is live, and with
    /// `ReadError` and the cursor's path where the capability failed. Otherwise
    /// the elements are put in the order of their names, remembered by the
    /// cursor and returned.
    pub fn finish_read(&mut self, id: u16, outcome: Option<Vec<FSElement>>) -> (read: Result<
        &Vec<FSElement>,
        CursorError,
    >)
        requires
            old(self).wf(),
        ensures
            final(self).wf(),
            final(self).limit() == old(self).limit(),
            final(self).capability() == old(self).capability(),
            records(
                old(self).cursors(),
                id,
                outcome_view(outcome),
                read_view(read),
                final(self).cursors(),
            ),
    {
        broadcast use group_hash_axioms;

        let cursor = match self.cursors.remove(&id) {
            Some(cursor) => cursor,
            None => {
                assert(self.cursors() =~= old(self).cursors());
                return Err(CursorError::UnknownCursor);
            },
        };
        match outcome {
            None => {
                let path = copy_bytes(cursor.path.as_slice());
                self.cursors.insert(id, cursor);
                assert(self.cursors@ =~= old(self).cursors@);
                assert(self.cursors() =~= old(self).cursors());
                Err(CursorError::ReadError { path })
            },
            Some(elements) => {
                let sorted = sort_by_name(elements);
                let ghost listing = element_views(sorted@);
                let ghost stands = cursor.path@;
                self.cursors.insert(id, Cursor { path: cursor.path, state: Some(sorted) });
                assert(self.cursors() =~= old(self).cursors().insert(
                    id,
                    CursorState { path: stands, listing: Some(listing) },
                ));
                match self.cursors.get(&id) {
                    Some(cursor) => match &cursor.state {
                        Some(listing) => Ok(listing),
                        None => vstd::pervasive::unreached(),
                    },
                    None => vstd::pervasive::unreached(),
                }
            },
        }
    }

    /// Reads the elements at the cursor's path through the listing capability
    /// and remembers them.
    ///
    /// Fails with `UnknownCursor` where no such cursor is live. For a live
    /// cursor the capability is asked for the cursor's path, and its answer
    /// decides the rest as [`Browser::finish_read`] says: a failure gives
    /// `ReadError` with the cursor's path, a success gives the elements in
    /// the order of their names.
    pub fn read_cursor(&mut self, id: u16) -> (read: Result<&Vec<FSElement>, CursorError>)
        requires
            old(self).wf(),
        ensures
            final(self).wf(),
            final(self).limit() == old(self).limit(),
            final(self).capability() == old(self).capability(),
            reads(
                old(self).capability(),
                old(self).cursors(),
                id,
                read_view(read),
                final(self).cursors(),
            ),
    {
        broadcast use group_hash_axioms;

        let outcome = match self.cursors.get(&id) {
            Some(cursor) => {
                let answer = self.fs.list(cursor.path.as_slice());
                let ghost asked = answer;
                let outcome = match answer {
                    Ok(elements) => Some(elements),
                    Err(_) => None,
                };
                proof {
                    assert(self.capability().lists(self.cursors()[id].path, asked));
                    assert(outcome_view(outcome) == answer_view(asked));
                }
                outcome
            },
            None => None,
        };
        self.finish_read(id, outcome)
    }

    /// The path at which the cursor `id` stands. Fails with `UnknownCursor`
    /// where no such cursor is live.
    pub fn get_location_cursor(&self, id: u16) -> (located: Result<&Vec<u8>, CursorError>)
        ensures
            locates(self.cursors(), id, match located {
                Ok(path) => Ok(path@),
                Err(refusal) => Err(refusal@),
            }),
    {
        broadcast use group_hash_axioms;

        match self.cursors.get(&id) {
            Some(cursor) => Ok(&cursor.path),
            None => Err(CursorError::UnknownCursor),
        }
    }

    /// The listing that the cursor `id` remembers: that of its last successful
    /// read, unless it has moved to another path since. Fails with
    /// `UnknownCursor` where no such cursor is live.
    pub fn cached_listing(&self, id: u16) -> (cached: Result<Option<&Vec<FSElement>>, CursorError>)
        ensures
            match cached {
                Ok(Some(listing)) => self.cursors().contains_key(id) && self.cursors()[id].listing
                    == Some(element_views(listing@)),
                Ok(None) => self.cursors().contains_key(id) && self.cursors()[id].listing is None,
                Err(refusal) => !self.cursors().contains_key(id) && refusal@
                    == CursorFault::UnknownCursor,
            },
    {
        broadcast use group_hash_axioms;

        match self.cursors.get(&id) {
            Some(cursor) => match &cursor.state {
                Some(listing) => Ok(Some(listing)),
                None => Ok(None),
            },
            None => Err(CursorError::UnknownCursor),
        }
    }

    /// Moves the cursor `id` to `path`. Fails with `UnknownCursor` where no
    /// such cursor is live.
    ///
    /// A move to the path where the cursor stands changes nothing. A move to
    /// another path forgets the cursor's listing, whether or not the new path
    /// can be listed.
    pub fn move_cursor(&mut self, id: u16, path: &[u8]) -> (moved: Result<(), CursorError>)
        requires
            old(self).wf(),
        ensures
            final(self).wf(),
            final(self).limit() == old(self).limit(),
            final(self).capability() == old(self).capability(),
            moves(old(self).cursors(), id, path@, moved, final(self).cursors()),
    {
        broadcast use group_hash_axioms;

        let stays = match self.cursors.get(&id) {
            Some(cursor) => paths_match(cursor.path.as_slice(), path),
            None => {
                return Err(CursorError::UnknownCursor);
            },
        };
        if !stays {
            self.cursors.insert(id, Cursor { path: copy_bytes(path), state: None });
            assert(self.cursors() =~= old(self).cursors().insert(
                id,
                CursorState { path: path@, listing: None },
            ));
        }
        Ok(())
    }

    /// Destroys every cursor.
    pub fn destroy_all(&mut self)
        ensures
            final(self).wf(),
            final(self).limit() == old(self).limit(),
            final(self).capability() == old(self).capability(),
            final(self).cursors() == Map::<u16, CursorState>::empty(),
    {
        self.cursors.clear();
        assert(self.cursors() =~= Map::<u16, CursorState>::empty());
    }

    /// Answers a request with the operation that it names.
    pub fn process(&mut self, request: Request) -> (response: Response)
        requires
            old(self).wf(),
        ensures
            final(self).wf(),
            final(self).limit() == old(self).limit(),
            final(self).capability() == old(self).capability(),
            answers(
                old(self).capability(),
                old(self).cursors(),
                old(self).limit(),
                request,
                response,
                final(self).cursors(),
            ),
    {
        match request {
            Request::Create => Response::Create(self.create_cursor()),
            Request::Destroy { id } => Response::Destroy(self.destroy_cursor(id)),
            Request::Read { id } => {
                let read = match self.read_cursor(id) {
                    Ok(listing) => Ok(copy_elements(listing)),
                    Err(refusal) => Err(refusal),
                };
                Response::Read(read)
            },
            Request::GetLocation { id } => {
                let located = match self.get_location_cursor(id) {
                    Ok(path) => Ok(copy_bytes(path.as_slice())),
                    Err(refusal) => Err(refusal),
                };
                Response::GetLocation(located)
            },
            Request::Move { id, path } => Response::Move(self.move_cursor(id, path.as_slice())),
        }
    }
}

} // verus!
