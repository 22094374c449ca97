//! Paths as byte strings.
//!
//! A path is a sequence of bytes in which `/` separates pieces. Empty pieces
//! and pieces that are a single dot do not move through the tree; every other
//! piece is a step, and the step `..` is the one that climbs. Two paths are
//! the same when they start at the same place and take the same steps.

use vstd::prelude::*;

verus! {

/// The byte that separates the pieces of a path.
pub const SEPARATOR: u8 = 0x2f;

/// The byte of which the pieces `.` and `..` are made.
pub const DOT: u8 = 0x2e;

/// The pieces of `path` between separators, empty ones included. A path of
/// `n` separators has `n + 1` pieces.
pub open spec fn pieces(path: Seq<u8>) -> Seq<Seq<u8>>
    decreases path.len(),
{
    if path.len() == 0 {
        seq![Seq::<u8>::empty()]
    } else {
        let before = pieces(path.drop_last());
        if path.last() == SEPARATOR {
            before.push(Seq::<u8>::empty())
        } else {
            before.drop_last().push(before.last().push(path.last()))
        }
    }
}

/// The piece `.`, which stands for the directory it is found in.
pub open spec fn is_cur_dir(piece: Seq<u8>) -> bool {
    piece =~= seq![DOT]
}

/// The piece `..`, which stands for the parent directory.
pub open spec fn is_parent_dir(piece: Seq<u8>) -> bool {
    piece =~= seq![DOT, DOT]
}

/// A piece that moves through the tree: not empty and not `.`.
pub open spec fn is_step(piece: Seq<u8>) -> bool {
    piece.len() > 0 && !is_cur_dir(piece)
}

/// A path climbs when one of its steps is `..`.
pub open spec fn climbs(path: Seq<u8>) -> bool {
    exists|i: int| 0 <= i < steps(path).len() && is_parent_dir(#[trigger] steps(path)[i])
}

/// [`is_step`] as a predicate to filter with.
pub open spec fn step_filter() -> spec_fn(Seq<u8>) -> bool {
    |piece: Seq<u8>| is_step(piece)
}

/// The steps of `path`, in order.
pub open spec fn steps(path: Seq<u8>) -> Seq<Seq<u8>> {
    pieces(path).filter(step_filter())
}

/// A path is absolute when it starts at the root of the tree.
pub open spec fn is_absolute(path: Seq<u8>) -> bool {
    path.len() > 0 && path[0] == SEPARATOR
}

/// A relative path may name its starting directory with a leading `.`.
pub open spec fn starts_with_cur_dir(path: Seq<u8>) -> bool {
    is_cur_dir(pieces(path)[0])
}

/// Two spellings of one path: same start, same steps.
pub open spec fn same_path(a: Seq<u8>, b: Seq<u8>) -> bool {
    &&& is_absolute(a) == is_absolute(b)
    &&& starts_with_cur_dir(a) == starts_with_cur_dir(b)
    &&& steps(a) == steps(b)
}

/// The final step of `path` where it names something: a path that ends in
/// `..`, or takes no step at all, has no file name.
pub open spec fn file_name(path: Seq<u8>) -> Option<Seq<u8>> {
    let taken = steps(path);
    if taken.len() > 0 && !is_parent_dir(taken.last()) {
        Some(taken.last())
    } else {
        None
    }
}

/// The steps joined into a relative path, one separator between neighbours.
pub open spec fn join_steps(taken: Seq<Seq<u8>>) -> Seq<u8>
    decreases taken.len(),
{
    if taken.len() == 0 {
        Seq::<u8>::empty()
    } else if taken.len() == 1 {
        taken[0]
    } else {
        join_steps(taken.drop_last()) + seq![SEPARATOR] + taken.last()
    }
}

/// `relative` appended to `base`. An absolute `relative` replaces `base`;
/// otherwise a separator is put between the two unless `base` is empty or
/// already ends in one.
pub open spec fn join(base: Seq<u8>, relative: Seq<u8>) -> Seq<u8> {
    if is_absolute(relative) {
        relative
    } else if base.len() > 0 && base.last() != SEPARATOR {
        base + seq![SEPARATOR] + relative
    } else {
        base + relative
    }
}

/// The byte strings that a sequence of vectors holds.
pub open spec fn byte_views(names: Seq<Vec<u8>>) -> Seq<Seq<u8>> {
    names.map_values(|name: Vec<u8>| name@)
}

/// A path always has a first piece, and a piece holds no separator.
pub proof fn lemma_pieces_shape(path: Seq<u8>)
    ensures
        pieces(path).len() >= 1,
        forall|i: int, j: int|
            0 <= i < pieces(path).len() && 0 <= j < pieces(path)[i].len()
                ==> pieces(path)[i][j] != SEPARATOR,
    decreases path.len(),
{
    if path.len() > 0 {
        lemma_pieces_shape(path.drop_last());
    }
}

/// The empty path takes no step.
pub proof fn lemma_empty_path_takes_no_step()
    ensures
        steps(Seq::<u8>::empty()) == Seq::<Seq<u8>>::empty(),
        !climbs(Seq::<u8>::empty()),
{
    let only = seq![Seq::<u8>::empty()];
    assert(pieces(Seq::<u8>::empty()) == only);
    Seq::<Seq<u8>>::empty().lemma_filter_push(Seq::<u8>::empty(), step_filter());
    assert(Seq::<Seq<u8>>::empty().push(Seq::<u8>::empty()) == only);
    reveal(Seq::filter);
    assert(Seq::<Seq<u8>>::empty().filter(step_filter()) == Seq::<Seq<u8>>::empty());
}

/// The first piece of a path is what stands before its first separator, so
/// it is settled by any prefix that reaches a separator.
proof fn lemma_first_piece_stable(path: Seq<u8>, n: int)
    requires
        0 <= n < path.len(),
        pieces(path.take(n)).len() > 1 || path[n] == SEPARATOR,
    ensures
        pieces(path)[0] == pieces(path.take(n))[0],
        pieces(path).len() > 1,
    decreases path.len(),
{
    lemma_pieces_shape(path.take(n));
    lemma_pieces_shape(path.drop_last());
    if n == path.len() - 1 {
        assert(path.take(n) == path.drop_last());
    } else {
        assert(path.drop_last().take(n) == path.take(n));
        lemma_first_piece_stable(path.drop_last(), n);
    }
}

/// A path without a separator is one piece.
proof fn lemma_single_piece(path: Seq<u8>)
    requires
        forall|i: int| 0 <= i < path.len() ==> path[i] != SEPARATOR,
    ensures
        pieces(path) == seq![path],
    decreases path.len(),
{
    if path.len() == 0 {
        assert(path == Seq::<u8>::empty());
    } else {
        lemma_single_piece(path.drop_last());
        assert(path.drop_last().push(path.last()) == path);
        assert(seq![path.drop_last()].drop_last().push(path) == seq![path]);
    }
}

/// A separator between two paths keeps their pieces apart: the pieces of the
/// whole are those of the first path and then those of the second.
proof fn lemma_pieces_around_separator(a: Seq<u8>, b: Seq<u8>)
    ensures
        pieces(a + seq![SEPARATOR] + b) == pieces(a) + pieces(b),
    decreases b.len(),
{
    let whole = a + seq![SEPARATOR] + b;
    lemma_pieces_shape(a);
    if b.len() == 0 {
        assert(whole.drop_last() == a);
        assert(pieces(a).push(Seq::<u8>::empty()) == pieces(a) + pieces(b));
    } else {
        let shorter = b.drop_last();
        assert(whole.drop_last() == a + seq![SEPARATOR] + shorter);
        lemma_pieces_around_separator(a, shorter);
        lemma_pieces_shape(shorter);
        let before = pieces(a) + pieces(shorter);
        if b.last() == SEPARATOR {
            assert(before.push(Seq::<u8>::empty()) == pieces(a) + pieces(shorter).push(
                Seq::<u8>::empty(),
            ));
        } else {
            assert(before.drop_last() == pieces(a) + pieces(shorter).drop_last());
            assert(before.drop_last().push(before.last().push(b.last())) == pieces(a) + pieces(
                shorter,
            ).drop_last().push(pieces(shorter).last().push(b.last())));
        }
    }
}

/// The steps of two paths with a separator between them are the steps of
/// the first and then those of the second.
pub proof fn lemma_steps_around_separator(a: Seq<u8>, b: Seq<u8>)
    ensures
        steps(a + seq![SEPARATOR] + b) == steps(a) + steps(b),
{
    lemma_pieces_around_separator(a, b);
    Seq::filter_distributes_over_add(pieces(a), pieces(b), step_filter());
}

/// Every step of a path is a step: it is not empty, it is not `.`, and it
/// holds no separator.
pub proof fn lemma_steps_are_steps(path: Seq<u8>)
    ensures
        forall|i: int| 0 <= i < steps(path).len() ==> is_step(#[trigger] steps(path)[i]),
        forall|i: int, j: int|
            0 <= i < steps(path).len() && 0 <= j < steps(path)[i].len() ==> steps(path)[i][j]
                != SEPARATOR,
{
    lemma_pieces_shape(path);
    assert forall|i: int| 0 <= i < steps(path).len() implies is_step(#[trigger] steps(path)[i])
        && (forall|j: int| 0 <= j < steps(path)[i].len() ==> steps(path)[i][j] != SEPARATOR) by {
        pieces(path).lemma_filter_pred(step_filter(), i);
        assert(steps(path).contains(steps(path)[i]));
        pieces(path).lemma_filter_contains_rev(step_filter(), steps(path)[i]);
        let k = choose|k: int| 0 <= k < pieces(path).len() && pieces(path)[k] == steps(path)[i];
        assert(pieces(path)[k] == steps(path)[i]);
    }
}

/// Joining steps and taking the result apart gives the steps back, and the
/// joined path is relative.
pub proof fn lemma_steps_of_joined_steps(taken: Seq<Seq<u8>>)
    requires
        forall|i: int| 0 <= i < taken.len() ==> is_step(#[trigger] taken[i]),
        forall|i: int, j: int|
            0 <= i < taken.len() && 0 <= j < taken[i].len() ==> taken[i][j] != SEPARATOR,
    ensures
        steps(join_steps(taken)) == taken,
        !is_absolute(join_steps(taken)),
    decreases taken.len(),
{
    if taken.len() == 0 {
        lemma_empty_path_takes_no_step();
    } else if taken.len() == 1 {
        lemma_single_piece(taken[0]);
        Seq::<Seq<u8>>::empty().lemma_filter_push(taken[0], step_filter());
        assert(Seq::<Seq<u8>>::empty().push(taken[0]) == seq![taken[0]]);
        reveal(Seq::filter);
        assert(Seq::<Seq<u8>>::empty().filter(step_filter()) == Seq::<Seq<u8>>::empty());
        assert(taken == seq![taken[0]]);
    } else {
        let shorter = taken.drop_last();
        lemma_steps_of_joined_steps(shorter);
        lemma_steps_of_joined_steps(seq![taken.last()]);
        assert(join_steps(seq![taken.last()]) == taken.last());
        lemma_steps_around_separator(join_steps(shorter), taken.last());
        assert(shorter + seq![taken.last()] == taken);
        if shorter.len() == 1 {
            assert(join_steps(shorter) == shorter[0]);
        }
        assert(join_steps(shorter).len() > 0) by {
            if shorter.len() > 1 {
                assert(join_steps(shorter) == join_steps(shorter.drop_last()) + seq![SEPARATOR]
                    + shorter.last());
            }
        }
        assert(join_steps(taken)[0] == join_steps(shorter)[0]);
    }
}

/// Appending a relative path adds its steps to those of the base, and what
/// is appended to an absolute path is absolute.
pub proof fn lemma_steps_of_join(base: Seq<u8>, relative: Seq<u8>)
    requires
        !is_absolute(relative),
    ensures
        steps(join(base, relative)) == steps(base) + steps(relative),
        is_absolute(base) ==> is_absolute(join(base, relative)),
{
    if base.len() == 0 {
        lemma_empty_path_takes_no_step();
        assert(base == Seq::<u8>::empty());
        assert(base + relative == relative);
        assert(steps(base) + steps(relative) == steps(relative));
    } else if base.last() != SEPARATOR {
        lemma_steps_around_separator(base, relative);
    } else {
        let shorter = base.drop_last();
        assert(base == shorter + seq![SEPARATOR] + Seq::<u8>::empty());
        assert(base + relative == shorter + seq![SEPARATOR] + relative);
        lemma_steps_around_separator(shorter, Seq::<u8>::empty());
        lemma_steps_around_separator(shorter, relative);
        lemma_empty_path_takes_no_step();
        assert(steps(shorter) + Seq::<Seq<u8>>::empty() == steps(shorter));
    }
}

/// Whether two byte strings are equal.
pub fn same_bytes(a: &[u8], b: &[u8]) -> (equal: bool)
    ensures
        equal == (a@ == b@),
{
    if a.len() != b.len() {
        return false;
    }
    let mut i: usize = 0;
    while i < a.len()
        invariant
            i <= a.len(),
            a.len() == b.len(),
            forall|k: int| 0 <= k < i ==> a@[k] == b@[k],
        decreases a.len() - i,
    {
        if a[i] != b[i] {
            return false;
        }
        i += 1;
    }
    assert(a@ =~= b@);
    true
}

/// A copy of a byte string.
pub fn copy_bytes(bytes: &[u8]) -> (copy: Vec<u8>)
    ensures
        copy@ == bytes@,
{
    let mut copy: Vec<u8> = Vec::with_capacity(bytes.len());
    let mut i: usize = 0;
    while i < bytes.len()
        invariant
            i <= bytes.len(),
            copy@ == bytes@.take(i as int),
        decreases bytes.len() - i,
    {
        copy.push(bytes[i]);
        assert(bytes@.take(i + 1) == bytes@.take(i as int).push(bytes@[i as int]));
        i += 1;
    }
    assert(bytes@.take(bytes.len() as int) == bytes@);
    copy
}

/// Whether `piece` moves through the tree.
fn piece_is_step(piece: &[u8]) -> (step: bool)
    ensures
        step == is_step(piece@),
{
    if piece.len() == 0 {
        false
    } else if piece.len() == 1 {
        piece[0] != DOT
    } else {
        true
    }
}

/// Whether `piece` is the step `..`.
pub fn piece_is_parent_dir(piece: &[u8]) -> (parent: bool)
    ensures
        parent == is_parent_dir(piece@),
{
    piece.len() == 2 && piece[0] == DOT && piece[1] == DOT
}

/// The steps of `path`, in order.
pub fn path_steps(path: &[u8]) -> (taken: Vec<Vec<u8>>)
    ensures
        byte_views(taken@) == steps(path@),
{
    let mut taken: Vec<Vec<u8>> = Vec::new();
    let mut current: Vec<u8> = Vec::new();
    let mut i: usize = 0;
    proof {
        assert(path@.take(0) == Seq::<u8>::empty());
        reveal(Seq::filter);
        assert(pieces(path@.take(0)).drop_last() == Seq::<Seq<u8>>::empty());
        assert(byte_views(taken@) == Seq::<Seq<u8>>::empty());
    }
    while i < path.len()
        invariant
            i <= path.len(),
            pieces(path@.take(i as int)).len() >= 1,
            current@ == pieces(path@.take(i as int)).last(),
            byte_views(taken@) == pieces(path@.take(i as int)).drop_last().filter(step_filter()),
        decreases path.len() - i,
    {
        let byte = path[i];
        let ghost before = pieces(path@.take(i as int));
        proof {
            assert(path@.take(i + 1).drop_last() == path@.take(i as int));
            lemma_pieces_shape(path@.take(i + 1));
        }
        if byte == SEPARATOR {
            let ghost old_taken = taken@;
            if piece_is_step(current.as_slice()) {
                taken.push(current);
                assert(byte_views(taken@) == byte_views(old_taken).push(before.last()));
            }
            current = Vec::new();
            proof {
                assert(before.push(Seq::<u8>::empty()).drop_last() == before);
                assert(before == before.drop_last().push(before.last()));
                before.drop_last().lemma_filter_push(before.last(), step_filter());
            }
        } else {
            current.push(byte);
            proof {
                assert(before.drop_last().push(before.last().push(byte)).drop_last()
                    == before.drop_last());
            }
        }
        i += 1;
    }
    proof {
        assert(path@.take(path.len() as int) == path@);
        let all = pieces(path@);
        assert(all == all.drop_last().push(all.last()));
        all.drop_last().lemma_filter_push(all.last(), step_filter());
    }
    let ghost old_taken = taken@;
    if piece_is_step(current.as_slice()) {
        taken.push(current);
        assert(byte_views(taken@) == byte_views(old_taken).push(pieces(path@).last()));
    }
    taken
}

/// Whether `path` names its starting directory with a leading `.`.
fn path_starts_with_cur_dir(path: &[u8]) -> (leading: bool)
    ensures
        leading == starts_with_cur_dir(path@),
{
    let mut n: usize = 0;
    while n < path.len() && path[n] != SEPARATOR
        invariant
            n <= path.len(),
            forall|i: int| 0 <= i < n ==> path@[i] != SEPARATOR,
        decreases path.len() - n,
    {
        n += 1;
    }
    proof {
        lemma_single_piece(path@.take(n as int));
        if n < path.len() {
            lemma_first_piece_stable(path@, n as int);
        } else {
            assert(path@.take(n as int) == path@);
        }
        assert(pieces(path@)[0] == path@.take(n as int));
    }
    n == 1 && path[0] == DOT
}

/// Whether `path` starts at the root of the tree.
pub fn path_is_absolute(path: &[u8]) -> (absolute: bool)
    ensures
        absolute == is_absolute(path@),
{
    path.len() > 0 && path[0] == SEPARATOR
}

/// Whether two lists of names hold the same byte strings in the same order.
fn same_names(a: &Vec<Vec<u8>>, b: &Vec<Vec<u8>>) -> (equal: bool)
    ensures
        equal == (byte_views(a@) == byte_views(b@)),
{
    if a.len() != b.len() {
        assert(byte_views(a@).len() != byte_views(b@).len());
        return false;
    }
    let mut i: usize = 0;
    while i < a.len()
        invariant
            i <= a.len(),
            a.len() == b.len(),
            forall|k: int| 0 <= k < i ==> a@[k]@ == b@[k]@,
        decreases a.len() - i,
    {
        if !same_bytes(a[i].as_slice(), b[i].as_slice()) {
            assert(byte_views(a@)[i as int] != byte_views(b@)[i as int]);
            return false;
        }
        i += 1;
    }
    assert(byte_views(a@) =~= byte_views(b@));
    true
}

/// Whether `a` and `b` spell the same path.
pub fn paths_match(a: &[u8], b: &[u8]) -> (same: bool)
    ensures
        same == same_path(a@, b@),
{
    if path_is_absolute(a) != path_is_absolute(b) {
        return false;
    }
    if path_starts_with_cur_dir(a) != path_starts_with_cur_dir(b) {
        return false;
    }
    let steps_a = path_steps(a);
    let steps_b = path_steps(b);
    same_names(&steps_a, &steps_b)
}

/// The final step of `path`, if it names something.
pub fn path_file_name(path: &[u8]) -> (name: Option<Vec<u8>>)
    ensures
        match name {
            Some(n) => file_name(path@) == Some(n@),
            None => file_name(path@) is None,
        },
{
    let mut taken = path_steps(path);
    let ghost all = taken@;
    match taken.pop() {
        Some(last) => {
            assert(byte_views(all).last() == last@);
            if piece_is_parent_dir(last.as_slice()) {
                None
            } else {
                Some(last)
            }
        },
        None => {
            assert(byte_views(all).len() == 0);
            None
        },
    }
}

/// The steps of `taken` from index `from` on, joined into a relative path.
pub fn join_path_steps(taken: &Vec<Vec<u8>>, from: usize) -> (joined: Vec<u8>)
    requires
        from <= taken.len(),
    ensures
        joined@ == join_steps(byte_views(taken@).skip(from as int)),
{
    let mut joined: Vec<u8> = Vec::new();
    let mut i: usize = from;
    let ghost rest = byte_views(taken@).skip(from as int);
    proof {
        assert(rest.take(0) == Seq::<Seq<u8>>::empty());
    }
    while i < taken.len()
        invariant
            from <= i <= taken.len(),
            rest == byte_views(taken@).skip(from as int),
            joined@ == join_steps(rest.take(i - from)),
        decreases taken.len() - i,
    {
        let ghost done = rest.take(i - from);
        let ghost next = rest.take(i - from + 1);
        proof {
            assert(next.drop_last() == done);
            assert(next.last() == taken@[i as int]@);
        }
        if i > from {
            joined.push(SEPARATOR);
        }
        let piece = &taken[i];
        let mut k: usize = 0;
        let ghost start = joined@;
        while k < piece.len()
            invariant
                k <= piece.len(),
                joined@ == start + piece@.take(k as int),
            decreases piece.len() - k,
        {
            joined.push(piece[k]);
            assert(piece@.take(k + 1) == piece@.take(k as int).push(piece@[k as int]));
            k += 1;
        }
        proof {
            assert(piece@.take(piece.len() as int) == piece@);
            if i == from {
                assert(joined@ == piece@);
            }
        }
        i += 1;
    }
    proof {
        assert(rest.take(taken.len() - from) == rest);
    }
    joined
}

/// `relative` appended to `base`.
pub fn join_paths(base: &[u8], relative: &[u8]) -> (joined: Vec<u8>)
    ensures
        joined@ == join(base@, relative@),
{
    if path_is_absolute(relative) {
        return copy_bytes(relative);
    }
    let mut joined = copy_bytes(base);
    if base.len() > 0 && base[base.len() - 1] != SEPARATOR {
        joined.push(SEPARATOR);
    }
    let ghost start = joined@;
    let mut k: usize = 0;
    while k < relative.len()
        invariant
            k <= relative.len(),
            joined@ == start + relative@.take(k as int),
        decreases relative.len() - k,
    {
        joined.push(relative[k]);
        assert(relative@.take(k + 1) == relative@.take(k as int).push(relative@[k as int]));
        k += 1;
    }
    assert(relative@.take(relative.len() as int) == relative@);
    joined
}

} // verus!
