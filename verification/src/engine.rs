//! The collision-safe relocation engine.
//!
//! The engine works on a snapshot of the directories involved: each entry is
//! a file name together with the identity check's verdict on it (is this
//! entry part of the source file's own family, i.e. the same underlying file
//! already placed).  From the snapshot it decides the destination stem and
//! the full list of moves, and guarantees that no planned move lands on a
//! path held by a different file.

use vstd::prelude::*;

verus! {

use crate::codec::CalendarTimestamp;
use crate::codec::date_to_name_with_secs;
use crate::codec::digit_char;
use crate::codec::sec_of_day;
use crate::codec::token_with_secs;
use crate::codec::push_char;

/// A directory entry as the engine sees it: a file name, and whether the
/// identity check classified the entry as the source file's own family.
pub struct DirEntry {
    pub name: String,
    pub same_family: bool,
}

/// A single planned move: a file name in the source directory, and the name
/// it is to take in the destination directory.
pub struct MovePair {
    pub from: String,
    pub to: String,
}

/// What a relocation failed on.
#[derive(Clone, Copy, Debug, PartialEq, Eq, Structural)]
pub enum RelocationError {
    /// A directory could not be read.
    DirectoryReadError,
    /// The filesystem rename itself failed.
    RenameFailed,
    /// A move was about to land on a path already held by a different file:
    /// the fatal invariant violation the engine guards against.
    InvariantViolation,
    /// The collision search ran out of candidates: every attempt within the
    /// budget was blocked, or the seconds run left its five-digit room.
    SearchExhausted,
}

/// How a file is relocated: a new name, a new directory, or both.
#[derive(Clone, Copy, Debug, PartialEq, Eq, Structural)]
pub enum Mode {
    /// Encode the timestamp into the file's name; stay in its directory.
    Rename,
    /// Keep the name; move into the date directory.
    Move,
    /// Encode the name and move into the date directory.
    RenameMove,
}

/// Whether the mode gives the file a token name.
pub open spec fn mode_renames(m: Mode) -> bool {
    m is Rename || m is RenameMove
}

/// Whether the mode moves the file into a date directory.
pub open spec fn mode_moves(m: Mode) -> bool {
    m is Move || m is RenameMove
}

/// The index of the last `.` of `s`, or -1 if there is none.
pub open spec fn last_dot(s: Seq<char>) -> int
    decreases s.len(),
{
    if s.len() == 0 {
        -1
    } else if s[s.len() - 1] == '.' {
        s.len() - 1
    } else {
        last_dot(s.drop_last())
    }
}

/// The stem of a file name: what stands before the last dot.  A name
/// without a dot, or whose only dot leads it, is its own stem.
pub open spec fn stem_of(s: Seq<char>) -> Seq<char> {
    if last_dot(s) <= 0 {
        s
    } else {
        s.take(last_dot(s))
    }
}

/// The extension of a file name: what follows the last dot, when a dot
/// stands past the leading position.
pub open spec fn ext_of(s: Seq<char>) -> Option<Seq<char>> {
    if last_dot(s) <= 0 {
        None
    } else {
        Some(s.skip(last_dot(s) + 1))
    }
}

/// Finds the position of the last dot of a name.
fn find_last_dot(name: &str) -> (r: Option<usize>)
    ensures
        match r {
            Some(i) => 0 <= i < name@.len() && last_dot(name@) == i,
            None => last_dot(name@) == -1,
        },
{
    let len = name.unicode_len();
    let mut i = len;
    proof {
        assert(name@.take(len as int) =~= name@);
    }
    loop
        invariant
            0 <= i <= len,
            len == name@.len(),
            last_dot(name@) == last_dot(name@.take(i as int)),
        decreases i,
    {
        if i == 0 {
            return None;
        }
        let c = name.get_char(i - 1);
        proof {
            assert(name@.take(i as int).last() == name@[i - 1]);
        }
        if c == '.' {
            return Some(i - 1);
        }
        proof {
            assert(name@.take(i as int).drop_last() =~= name@.take(i - 1));
        }
        i = i - 1;
    }
}

/// The stem of a file name.
pub fn file_stem(name: &str) -> (r: String)
    ensures
        r@ == stem_of(name@),
{
    match find_last_dot(name) {
        Some(i) => {
            if i > 0 {
                String::from_str(name.substring_char(0, i))
            } else {
                String::from_str(name)
            }
        },
        None => String::from_str(name),
    }
}

/// The extension of a file name.
pub fn file_ext(name: &str) -> (r: Option<String>)
    ensures
        match ext_of(name@) {
            Some(e) => r matches Some(s) && s@ == e,
            None => r is None,
        },
{
    let len = name.unicode_len();
    match find_last_dot(name) {
        Some(i) => {
            if i > 0 {
                Some(String::from_str(name.substring_char(i + 1, len)))
            } else {
                None
            }
        },
        None => None,
    }
}

/// The character with any uppercase ASCII letter lowered.
pub open spec fn lower_of_char(c: char) -> char {
    if 65 <= c as u32 <= 90 {
        (((c as u32) + 32) as u8) as char
    } else {
        c
    }
}

/// The sequence with every uppercase ASCII letter lowered.
pub open spec fn lower_of(s: Seq<char>) -> Seq<char> {
    s.map_values(|c: char| lower_of_char(c))
}

/// Lowers every uppercase ASCII letter of a string.
pub fn to_lowercase_ascii(s: &str) -> (r: String)
    ensures
        r@ == lower_of(s@),
{
    let len = s.unicode_len();
    let mut out = String::new();
    let mut i: usize = 0;
    while i < len
        invariant
            0 <= i <= len,
            len == s@.len(),
            out@ == lower_of(s@.take(i as int)),
        decreases len - i,
    {
        let c = s.get_char(i);
        let v = c as u32;
        if 65 <= v && v <= 90 {
            push_char(&mut out, ((v + 32) as u8) as char);
        } else {
            push_char(&mut out, c);
        }
        proof {
            assert(out@ =~= lower_of(s@.take(i + 1)));
        }
        i += 1;
    }
    proof {
        assert(s@.take(len as int) =~= s@);
    }
    out
}

/// The last dot's position lies inside the name, or is -1.
proof fn lemma_last_dot_bounds(s: Seq<char>)
    ensures
        -1 <= last_dot(s) < s.len(),
    decreases s.len(),
{
    if s.len() > 0 && s[s.len() - 1] != '.' {
        lemma_last_dot_bounds(s.drop_last());
    }
}

/// No character past the last dot is a dot.
proof fn lemma_no_dot_after_last(s: Seq<char>, j: int)
    requires
        0 <= j,
        last_dot(s) < j < s.len(),
    ensures
        s[j] != '.',
    decreases s.len(),
{
    if s[s.len() - 1] == '.' {
        assert(last_dot(s) == s.len() - 1);
    } else if j == s.len() - 1 {
        assert(s[j] != '.');
    } else {
        assert(last_dot(s) == last_dot(s.drop_last()));
        assert(s.drop_last()[j] == s[j]);
        lemma_no_dot_after_last(s.drop_last(), j);
    }
}

/// The last dot of `stem + "." + ext` is the appended one, when the
/// extension itself carries no dot.
proof fn lemma_last_dot_append(stem: Seq<char>, ext: Seq<char>)
    requires
        forall|j: int| 0 <= j < ext.len() ==> ext[j] != '.',
    ensures
        last_dot(stem + seq!['.'] + ext) == stem.len(),
    decreases ext.len(),
{
    let t = stem + seq!['.'] + ext;
    if ext.len() == 0 {
        assert(t.len() == stem.len() + 1);
        assert(t[t.len() - 1] == '.');
    } else {
        assert(t[t.len() - 1] == ext[ext.len() - 1]);
        assert(t[t.len() - 1] != '.');
        assert(t.drop_last() =~= stem + seq!['.'] + ext.drop_last());
        assert forall|j: int| 0 <= j < ext.drop_last().len() implies ext.drop_last()[j] != '.' by {
            assert(ext.drop_last()[j] == ext[j]);
        }
        lemma_last_dot_append(stem, ext.drop_last());
    }
}

/// A name built as `stem + "." + ext` (dot-free extension, nonempty stem)
/// splits back into that stem and that extension.
proof fn lemma_split_made_name(stem: Seq<char>, ext: Seq<char>)
    requires
        stem.len() > 0,
        forall|j: int| 0 <= j < ext.len() ==> ext[j] != '.',
    ensures
        stem_of(stem + seq!['.'] + ext) == stem,
        ext_of(stem + seq!['.'] + ext) == Some(ext),
{
    let t = stem + seq!['.'] + ext;
    lemma_last_dot_append(stem, ext);
    assert(t.take(stem.len() as int) =~= stem);
    assert(t.skip(stem.len() as int + 1) =~= ext);
}

/// An extension never carries a dot.
proof fn lemma_ext_no_dot(s: Seq<char>)
    requires
        ext_of(s) is Some,
    ensures
        forall|j: int| 0 <= j < ext_of(s)->0.len() ==> ext_of(s)->0[j] != '.',
{
    let d = last_dot(s);
    let e = ext_of(s)->0;
    lemma_last_dot_bounds(s);
    assert forall|j: int| 0 <= j < e.len() implies e[j] != '.' by {
        assert(e[j] == s[d + 1 + j]);
        lemma_no_dot_after_last(s, d + 1 + j);
    }
}

/// Whether some listed entry carries this stem and is not the source's own
/// family: a true collision.
pub open spec fn blocked(listing: Seq<DirEntry>, stem: Seq<char>) -> bool {
    exists|i: int|
        0 <= i < listing.len() && stem_of(#[trigger] listing[i].name@) == stem
            && !listing[i].same_family
}

/// Whether a file family other than the source's own, with the given stem,
/// exists in the listed directory.
pub fn another_file_with_stem_exists(listing: &Vec<DirEntry>, stem: &String) -> (r: bool)
    ensures
        r == blocked(listing@, stem@),
{
    let mut i: usize = 0;
    while i < listing.len()
        invariant
            0 <= i <= listing@.len(),
            forall|j: int|
                0 <= j < i ==> !(stem_of(#[trigger] listing@[j].name@) == stem@
                    && !listing@[j].same_family),
        decreases listing@.len() - i,
    {
        if !listing[i].same_family {
            let entry_stem = file_stem(listing[i].name.as_str());
            if entry_stem == *stem {
                return true;
            }
        }
        i += 1;
    }
    false
}

/// The decimal rendering of `n`, without padding.
pub open spec fn dec_digits(n: int) -> Seq<char>
    decreases n,
{
    if n < 10 {
        seq![digit_char(n)]
    } else {
        dec_digits(n / 10).push(digit_char(n % 10))
    }
}

/// Appends the decimal rendering of `n`.
fn push_dec(s: &mut String, n: usize)
    ensures
        final(s)@ == old(s)@ + dec_digits(n as int),
    decreases n,
{
    if n < 10 {
        push_char(s, (48 + n as u8) as char);
        assert(final(s)@ =~= old(s)@ + dec_digits(n as int));
    } else {
        push_dec(s, n / 10);
        push_char(s, (48 + (n % 10) as u8) as char);
        assert(final(s)@ =~= old(s)@ + dec_digits(n as int));
    }
}

/// The rename-mode candidate stem for attempt `i`: the token re-encoded
/// with the seconds of the day advanced `i` steps.
pub open spec fn rename_candidate(ts: CalendarTimestamp, i: int) -> Seq<char> {
    token_with_secs(ts, sec_of_day(ts) + i)
}

/// The move-mode candidate stem for attempt `i`: the original stem itself,
/// then the stem with `-1`, `-2`, … appended.
pub open spec fn move_candidate(stem: Seq<char>, i: int) -> Seq<char> {
    if i == 0 {
        stem
    } else {
        stem + seq!['-'] + dec_digits(i)
    }
}

/// The candidate stem the search probes at attempt `i`.
pub open spec fn candidate(mode: Mode, ts: CalendarTimestamp, stem: Seq<char>, i: int) -> Seq<
    char,
> {
    if mode_renames(mode) {
        rename_candidate(ts, i)
    } else {
        move_candidate(stem, i)
    }
}

/// The listing a destination of `None` (stay in the source directory)
/// stands for: nothing beyond the source listing itself.
pub open spec fn dst_seq(dst: Option<&Vec<DirEntry>>) -> Seq<DirEntry> {
    match dst {
        Some(d) => d@,
        None => Seq::<DirEntry>::empty(),
    }
}

/// Whether a candidate stem is free of true collisions in both directories.
pub open spec fn free_at(src: Seq<DirEntry>, dst: Seq<DirEntry>, c: Seq<char>) -> bool {
    !blocked(src, c) && !blocked(dst, c)
}

/// A timestamp the engine can relocate under the given mode: calendar-range
/// fields up to the one day of rollover slack the offset can add, and a year
/// the token alphabet covers whenever the mode renames.
pub open spec fn relocatable(mode: Mode, ts: CalendarTimestamp) -> bool {
    &&& ts.year <= 9999
    &&& 1 <= ts.month <= 12
    &&& ts.day <= 35
    &&& ts.hour <= 23
    &&& ts.minute <= 59
    &&& ts.second <= 59
    &&& (mode_renames(mode) ==> 2000 <= ts.year <= 2025)
}

/// How many attempts the search may make before giving up: one more than
/// there are entries in the two directories — and in rename mode no more
/// than the five-digit seconds run can hold.
pub open spec fn attempt_limit(
    mode: Mode,
    ts: CalendarTimestamp,
    src: Seq<DirEntry>,
    dst: Seq<DirEntry>,
) -> int {
    let n = src.len() + dst.len() + 1 as int;
    if mode_renames(mode) && n > 100000 - sec_of_day(ts) {
        100000 - sec_of_day(ts)
    } else {
        n
    }
}

/// Searches for the first candidate stem that collides with no family other
/// than the source's own, in either directory.  `Ok` carries the stem and
/// its attempt index; `Err` says every candidate within the budget was
/// blocked.
fn find_unique_stem(
    mode: Mode,
    ts: CalendarTimestamp,
    stem0: &String,
    src: &Vec<DirEntry>,
    dst: Option<&Vec<DirEntry>>,
) -> (r: Result<(String, usize), RelocationError>)
    requires
        relocatable(mode, ts),
        src@.len() + dst_seq(dst).len() + 1 <= usize::MAX,
    ensures
        match r {
            Ok(p) => {
                &&& p.0@ == candidate(mode, ts, stem0@, p.1 as int)
                &&& p.1 < attempt_limit(mode, ts, src@, dst_seq(dst))
                &&& free_at(src@, dst_seq(dst), p.0@)
                &&& forall|j: int|
                    0 <= j < p.1 ==> !free_at(
                        src@,
                        dst_seq(dst),
                        candidate(mode, ts, stem0@, j),
                    )
            },
            Err(e) => {
                &&& e == RelocationError::SearchExhausted
                &&& forall|j: int|
                    0 <= j < attempt_limit(mode, ts, src@, dst_seq(dst)) ==> !free_at(
                        src@,
                        dst_seq(dst),
                        candidate(mode, ts, stem0@, j),
                    )
            },
        },
{
    let dst_len: usize = match dst {
        Some(d) => d.len(),
        None => 0,
    };
    let fuel: usize = src.len() + dst_len + 1;
    let renames = match mode {
        Mode::Rename | Mode::RenameMove => true,
        Mode::Move => false,
    };
    let sod: u32 = ts.hour as u32 * 3600 + ts.minute as u32 * 60 + ts.second as u32;
    let mut i: usize = 0;
    while i < fuel
        invariant
            relocatable(mode, ts),
            0 <= i <= fuel,
            fuel == src@.len() + dst_seq(dst).len() + 1,
            renames == mode_renames(mode),
            sod == sec_of_day(ts),
            forall|j: int|
                0 <= j < i ==> !free_at(src@, dst_seq(dst), candidate(mode, ts, stem0@, j)),
        decreases fuel - i,
    {
        let cand: String = if renames {
            if i >= (100000 - sod) as usize {
                return Err(RelocationError::SearchExhausted);
            }
            date_to_name_with_secs(ts, sod + i as u32)
        } else {
            let mut c = stem0.clone();
            if i > 0 {
                push_char(&mut c, '-');
                push_dec(&mut c, i);
                proof {
                    assert(c@ =~= stem0@ + seq!['-'] + dec_digits(i as int));
                }
            }
            c
        };
        assert(cand@ == candidate(mode, ts, stem0@, i as int));
        let b1 = another_file_with_stem_exists(src, &cand);
        let b2 = match dst {
            Some(d) => another_file_with_stem_exists(d, &cand),
            None => false,
        };
        if !b1 && !b2 {
            return Ok((cand, i));
        }
        i += 1;
    }
    Err(RelocationError::SearchExhausted)
}

/// The name a family member takes at the destination: the chosen stem with
/// the member's own extension, lowered.
pub open spec fn dest_name_of(stem: Seq<char>, name: Seq<char>) -> Seq<char> {
    match ext_of(name) {
        Some(e) => stem + seq!['.'] + lower_of(e),
        None => stem,
    }
}

/// Every listed member of the family carries an extension.  (The engine
/// requires this of its input; a family member without one cannot be given
/// a destination name of its own.)
pub open spec fn family_extensions_ok(src: Seq<DirEntry>, stem: Seq<char>) -> bool {
    forall|j: int|
        0 <= j < src.len() && stem_of(#[trigger] src[j].name@) == stem ==> ext_of(src[j].name@)
            is Some
}

/// The whole planned relocation of one file family: the chosen destination
/// stem, and every move to make.
pub struct RelocationPlan {
    pub stem: String,
    pub moves: Vec<MovePair>,
}

/// Lowering a dot-free sequence keeps it dot-free.
proof fn lemma_lower_no_dot(e: Seq<char>)
    requires
        forall|j: int| 0 <= j < e.len() ==> e[j] != '.',
    ensures
        forall|j: int| 0 <= j < lower_of(e).len() ==> lower_of(e)[j] != '.',
{
    assert forall|j: int| 0 <= j < lower_of(e).len() implies lower_of(e)[j] != '.' by {
        assert(lower_of(e)[j] == lower_of_char(e[j]));
    }
}

/// A destination name built from a nonempty stem and a member with an
/// extension splits back into that stem.
proof fn lemma_dest_name_stem(stem: Seq<char>, name: Seq<char>)
    requires
        stem.len() > 0,
        ext_of(name) is Some,
    ensures
        stem_of(dest_name_of(stem, name)) == stem,
{
    let e = ext_of(name)->0;
    lemma_ext_no_dot(name);
    lemma_lower_no_dot(e);
    lemma_split_made_name(stem, lower_of(e));
}

/// Whether `mv` moves a listed member of the family with stem `src_stem`
/// to that member's destination name under the chosen stem.
pub open spec fn is_family_move(
    src: Seq<DirEntry>,
    src_stem: Seq<char>,
    stem: Seq<char>,
    mv: MovePair,
) -> bool {
    exists|j: int|
        {
            &&& 0 <= j < src.len()
            &&& mv.from@ == (#[trigger] src[j].name@)
            &&& stem_of(src[j].name@) == src_stem
            &&& mv.to@ == dest_name_of(stem, src[j].name@)
        }
}

/// Whether every listed member of the family is carried by some move, or
/// (when the family stays in place) already bears its destination name.
pub open spec fn family_covered(
    src: Seq<DirEntry>,
    src_stem: Seq<char>,
    stem: Seq<char>,
    moves: Seq<MovePair>,
    in_place: bool,
) -> bool {
    forall|j: int|
        0 <= j < src.len() && stem_of(#[trigger] src[j].name@) == src_stem ==> (exists|k: int|
            0 <= k < moves.len() && (#[trigger] moves[k]).from@ == src[j].name@) || (in_place
            && dest_name_of(stem, src[j].name@) == src[j].name@)
}

/// Collects the moves of the family with stem `src_stem`: one move per
/// listed member, to the chosen stem with the member's own extension
/// lowered; a member already bearing its destination name is skipped when
/// the family stays in its directory (`in_place` true).
fn collect_family_moves(
    stem: &String,
    src_stem: &String,
    src_listing: &Vec<DirEntry>,
    in_place: bool,
) -> (moves: Vec<MovePair>)
    requires
        stem@.len() > 0,
        family_extensions_ok(src_listing@, src_stem@),
    ensures
        forall|k: int|
            0 <= k < moves@.len() ==> is_family_move(
                src_listing@,
                src_stem@,
                stem@,
                #[trigger] moves@[k],
            ),
        family_covered(src_listing@, src_stem@, stem@, moves@, in_place),
        in_place ==> forall|k: int|
            0 <= k < moves@.len() ==> (#[trigger] moves@[k]).from@ != moves@[k].to@,
{
    let mut moves: Vec<MovePair> = Vec::new();
    let mut j: usize = 0;
    while j < src_listing.len()
        invariant
            0 <= j <= src_listing@.len(),
            stem@.len() > 0,
            family_extensions_ok(src_listing@, src_stem@),
            forall|k: int|
                0 <= k < moves@.len() ==> is_family_move(
                    src_listing@,
                    src_stem@,
                    stem@,
                    #[trigger] moves@[k],
                ),
            forall|jj: int|
                0 <= jj < j && stem_of(#[trigger] src_listing@[jj].name@) == src_stem@ ==> (
                exists|k: int|
                    0 <= k < moves@.len() && (#[trigger] moves@[k]).from@
                        == src_listing@[jj].name@) || (in_place && dest_name_of(
                    stem@,
                    src_listing@[jj].name@,
                ) == src_listing@[jj].name@),
            in_place ==> forall|k: int|
                0 <= k < moves@.len() ==> (#[trigger] moves@[k]).from@ != moves@[k].to@,
        decreases src_listing@.len() - j,
    {
        let name = &src_listing[j].name;
        let entry_stem = file_stem(name.as_str());
        if entry_stem == *src_stem {
            let mut to = stem.clone();
            match file_ext(name.as_str()) {
                Some(e) => {
                    let lo = to_lowercase_ascii(e.as_str());
                    push_char(&mut to, '.');
                    to.append(lo.as_str());
                    proof {
                        assert(to@ =~= stem@ + seq!['.'] + lower_of(ext_of(name@)->0));
                    }
                },
                None => {
                    proof {
                        assert(false);
                    }
                },
            }
            assert(to@ == dest_name_of(stem@, name@));
            let skip = if in_place {
                to == *name
            } else {
                false
            };
            if !skip {
                let ghost prev = moves@;
                moves.push(MovePair { from: name.clone(), to });
                proof {
                    let last = moves@.len() - 1;
                    assert(moves@[last].from@ == src_listing@[j as int].name@);
                    assert(moves@[last].to@ == dest_name_of(stem@, src_listing@[j as int].name@));
                    assert(is_family_move(src_listing@, src_stem@, stem@, moves@[last]));
                    assert(forall|k: int| 0 <= k < prev.len() ==> moves@[k] == prev[k]);
                }
            } else {
                proof {
                    assert(dest_name_of(stem@, src_listing@[j as int].name@)
                        == src_listing@[j as int].name@);
                }
            }
        }
        j += 1;
    }
    assert(family_covered(src_listing@, src_stem@, stem@, moves@, in_place));
    moves
}

/// Plans the relocation of the file family with stem `src_stem`: finds the
/// first candidate destination stem free of true collisions in the source
/// directory and (when moving) the destination directory, and lists a move
/// for every family member, each to the chosen stem with its own extension
/// lowered.  A member already bearing its destination name (possible only
/// when the file stays in its directory) is left alone.  No planned move
/// lands on a listed entry that is not the family itself.
pub fn move_file(
    mode: Mode,
    ts: CalendarTimestamp,
    src_stem: &String,
    src_listing: &Vec<DirEntry>,
    dst_listing: Option<&Vec<DirEntry>>,
) -> (r: Result<RelocationPlan, RelocationError>)
    requires
        relocatable(mode, ts),
        src_stem@.len() > 0,
        family_extensions_ok(src_listing@, src_stem@),
        src_listing@.len() + dst_seq(dst_listing).len() + 1 <= usize::MAX,
    ensures
        match r {
            Ok(plan) => {
                &&& plan.stem@.len() > 0
                &&& free_at(src_listing@, dst_seq(dst_listing), plan.stem@)
                &&& exists|i: int|
                    {
                        &&& 0 <= i < attempt_limit(mode, ts, src_listing@, dst_seq(dst_listing))
                        &&& plan.stem@ == candidate(mode, ts, src_stem@, i)
                        &&& forall|j: int|
                            0 <= j < i ==> !free_at(
                                src_listing@,
                                dst_seq(dst_listing),
                                candidate(mode, ts, src_stem@, j),
                            )
                    }
                &&& forall|k: int|
                    0 <= k < plan.moves@.len() ==> is_family_move(
                        src_listing@,
                        src_stem@,
                        plan.stem@,
                        #[trigger] plan.moves@[k],
                    )
                &&& family_covered(
                    src_listing@,
                    src_stem@,
                    plan.stem@,
                    plan.moves@,
                    dst_listing is None,
                )
                &&& dst_listing is None ==> forall|k: int|
                    0 <= k < plan.moves@.len() ==> (#[trigger] plan.moves@[k]).from@
                        != plan.moves@[k].to@
                &&& forall|k: int, j: int|
                    0 <= k < plan.moves@.len() && 0 <= j < dst_seq(dst_listing).len() && (
                    #[trigger] dst_seq(dst_listing)[j].name@) == (
                    #[trigger] plan.moves@[k]).to@ ==> dst_seq(dst_listing)[j].same_family
                &&& dst_listing is None ==> forall|k: int, j: int|
                    0 <= k < plan.moves@.len() && 0 <= j < src_listing@.len() && (
                    #[trigger] src_listing@[j].name@) == (#[trigger] plan.moves@[k]).to@
                        ==> src_listing@[j].same_family
            },
            Err(e) => {
                &&& e == RelocationError::SearchExhausted
                &&& forall|j: int|
                    0 <= j < attempt_limit(mode, ts, src_listing@, dst_seq(dst_listing))
                        ==> !free_at(
                        src_listing@,
                        dst_seq(dst_listing),
                        candidate(mode, ts, src_stem@, j),
                    )
            },
        },
{
    let found = match find_unique_stem(mode, ts, src_stem, src_listing, dst_listing) {
        Ok(p) => p,
        Err(e) => {
            return Err(e);
        },
    };
    let stem = found.0;
    let ghost chosen_i = found.1 as int;
    assert(stem@.len() > 0) by {
        if mode_renames(mode) {
            assert(stem@ == rename_candidate(ts, chosen_i));
        } else if chosen_i == 0 {
            assert(stem@ == src_stem@);
        } else {
            assert(stem@ == src_stem@ + seq!['-'] + dec_digits(chosen_i));
        }
    }
    let dst_is_none = match dst_listing {
        Some(_) => false,
        None => true,
    };
    let moves = collect_family_moves(&stem, src_stem, src_listing, dst_is_none);
    proof {
        assert(0 <= chosen_i < attempt_limit(mode, ts, src_listing@, dst_seq(dst_listing))
            && stem@ == candidate(mode, ts, src_stem@, chosen_i) && (forall|jx: int|
            0 <= jx < chosen_i ==> !free_at(
                src_listing@,
                dst_seq(dst_listing),
                candidate(mode, ts, src_stem@, jx),
            )));
        assert forall|k: int, jj: int|
            0 <= k < moves@.len() && 0 <= jj < dst_seq(dst_listing).len() && (#[trigger] dst_seq(
                dst_listing,
            )[jj].name@) == (#[trigger] moves@[k]).to@ implies dst_seq(
            dst_listing,
        )[jj].same_family by {
            assert(is_family_move(src_listing@, src_stem@, stem@, moves@[k]));
            let w = choose|w: int|
                {
                    &&& 0 <= w < src_listing@.len()
                    &&& moves@[k].from@ == (#[trigger] src_listing@[w].name@)
                    &&& stem_of(src_listing@[w].name@) == src_stem@
                    &&& moves@[k].to@ == dest_name_of(stem@, src_listing@[w].name@)
                };
            lemma_dest_name_stem(stem@, src_listing@[w].name@);
            assert(stem_of(dst_seq(dst_listing)[jj].name@) == stem@);
            assert(!blocked(dst_seq(dst_listing), stem@));
        }
        assert forall|k: int, jj: int|
            dst_listing is None && 0 <= k < moves@.len() && 0 <= jj < src_listing@.len() && (
            #[trigger] src_listing@[jj].name@) == (#[trigger] moves@[k]).to@ implies src_listing@[jj].same_family by {
            assert(is_family_move(src_listing@, src_stem@, stem@, moves@[k]));
            let w = choose|w: int|
                {
                    &&& 0 <= w < src_listing@.len()
                    &&& moves@[k].from@ == (#[trigger] src_listing@[w].name@)
                    &&& stem_of(src_listing@[w].name@) == src_stem@
                    &&& moves@[k].to@ == dest_name_of(stem@, src_listing@[w].name@)
                };
            lemma_dest_name_stem(stem@, src_listing@[w].name@);
            assert(stem_of(src_listing@[jj].name@) == stem@);
            assert(!blocked(src_listing@, stem@));
        }
    }
    Ok(RelocationPlan { stem, moves })
}

/// What one file's relocation is to use: the offset-adjusted timestamp and
/// the destination subdirectory, when one is to be entered.
pub struct RelocationRequest {
    pub ts: CalendarTimestamp,
    pub dest_subdir: Option<String>,
}

/// Decides how one file is handled: applies the hour offset to its resolved
/// timestamp, and names the date subdirectory when the mode moves — unless
/// the file's directory already bears that name, the mark of the engine's
/// own prior run, in which case the file stays where it is and the rerun
/// becomes a no-op.
pub fn handle_file(mode: Mode, ts: CalendarTimestamp, tz_offset: i8, src_dir_name: &String) -> (r:
    RelocationRequest)
    requires
        crate::codec::valid_timestamp(ts),
        -23 <= tz_offset <= 23,
    ensures
        r.ts == crate::resolver::offset_applied(ts, tz_offset as int),
        ({
            let adjusted = crate::resolver::offset_applied(ts, tz_offset as int);
            if mode_moves(mode) && src_dir_name@ != crate::codec::dir_token_of(adjusted) {
                r.dest_subdir matches Some(d) && d@ == crate::codec::dir_token_of(adjusted)
            } else {
                r.dest_subdir is None
            }
        }),
{
    let adjusted = crate::resolver::apply_offset(ts, tz_offset);
    let moves = match mode {
        Mode::Move | Mode::RenameMove => true,
        Mode::Rename => false,
    };
    if moves {
        let subdir = crate::codec::date_to_directory(adjusted);
        if subdir == *src_dir_name {
            RelocationRequest { ts: adjusted, dest_subdir: None }
        } else {
            RelocationRequest { ts: adjusted, dest_subdir: Some(subdir) }
        }
    } else {
        RelocationRequest { ts: adjusted, dest_subdir: None }
    }
}

/// Whether the engine can relocate this timestamp under this mode: the
/// caller's guard before `move_file`.
pub fn relocatable_check(mode: Mode, ts: CalendarTimestamp) -> (r: bool)
    ensures
        r == relocatable(mode, ts),
{
    let renames = match mode {
        Mode::Rename | Mode::RenameMove => true,
        Mode::Move => false,
    };
    ts.year <= 9999 && 1 <= ts.month && ts.month <= 12 && ts.day <= 35 && ts.hour <= 23
        && ts.minute <= 59 && ts.second <= 59 && (!renames || (2000 <= ts.year && ts.year <= 2025))
}

/// Relies on `same_file::is_same_file`: whether the two paths (each a
/// directory joined with a file name) denote the same underlying stored
/// file, by filesystem identity.  The answer depends on the state of the
/// disk; a probe that fails with an I/O error is `None`.
#[verifier::external_body]
fn paths_same_file(dir_a: &str, name_a: &str, dir_b: &str, name_b: &str) -> Option<bool> {
    let a = std::path::Path::new(dir_a).join(name_a);
    let b = std::path::Path::new(dir_b).join(name_b);
    match same_file::is_same_file(a, b) {
        Ok(r) => Some(r),
        Err(_) => None,
    }
}

/// Whether the listing carries this very name.
pub open spec fn listing_has(names: Seq<String>, name: Seq<char>) -> bool {
    exists|i: int| 0 <= i < names.len() && (#[trigger] names[i])@ == name
}

/// Whether the listed names contain `name`.
pub fn contains_name(names: &Vec<String>, name: &String) -> (r: bool)
    ensures
        r == listing_has(names@, name@),
{
    let mut i: usize = 0;
    while i < names.len()
        invariant
            0 <= i <= names@.len(),
            forall|j: int| 0 <= j < i ==> (#[trigger] names@[j])@ != name@,
        decreases names@.len() - i,
    {
        if names[i] == *name {
            return true;
        }
        i += 1;
    }
    false
}

/// The counterpart of a file against another file's extension: its own stem
/// with that extension put on.
pub open spec fn counterpart(name: Seq<char>, other_ext: Seq<char>) -> Seq<char> {
    stem_of(name) + seq!['.'] + other_ext
}

/// The identity check between the source file and a same-stem entry found
/// elsewhere: the two families are the same iff each file's counterpart
/// (its stem with the other file's extension) is present, and each file is
/// filesystem-identical to its counterpart.  When either counterpart is
/// missing from its directory's listing the answer is `false` without
/// touching the disk; otherwise the disk probes decide, and a failing probe
/// counts as not identical (a collision to escalate past, never to
/// overwrite).
pub fn files_with_same_extension_are_equal(
    src_dir: &String,
    src_name: &String,
    src_names: &Vec<String>,
    other_dir: &String,
    other_name: &String,
    other_names: &Vec<String>,
) -> (r: bool)
    requires
        ext_of(src_name@) is Some,
        ext_of(other_name@) is Some,
    ensures
        !(listing_has(src_names@, counterpart(src_name@, ext_of(other_name@)->0)) && listing_has(
            other_names@,
            counterpart(other_name@, ext_of(src_name@)->0),
        )) ==> r == false,
{
    let e1 = match file_ext(src_name.as_str()) {
        Some(e) => e,
        None => {
            proof {
                assert(false);
            }
            String::new()
        },
    };
    let e2 = match file_ext(other_name.as_str()) {
        Some(e) => e,
        None => {
            proof {
                assert(false);
            }
            String::new()
        },
    };
    let mut cp1 = file_stem(src_name.as_str());
    push_char(&mut cp1, '.');
    cp1.append(e2.as_str());
    let mut cp2 = file_stem(other_name.as_str());
    push_char(&mut cp2, '.');
    cp2.append(e1.as_str());
    proof {
        assert(cp1@ =~= counterpart(src_name@, ext_of(other_name@)->0));
        assert(cp2@ =~= counterpart(other_name@, ext_of(src_name@)->0));
    }
    if !contains_name(src_names, &cp1) || !contains_name(other_names, &cp2) {
        return false;
    }
    let first = paths_same_file(
        src_dir.as_str(),
        src_name.as_str(),
        other_dir.as_str(),
        cp2.as_str(),
    );
    match first {
        Some(true) => {},
        _ => {
            return false;
        },
    }
    let second = paths_same_file(
        other_dir.as_str(),
        other_name.as_str(),
        src_dir.as_str(),
        cp1.as_str(),
    );
    match second {
        Some(b) => b,
        None => false,
    }
}

/// Sidecar family atomicity: a plan that moves the family out of its
/// directory carries every member — a raw file and its sidecar alike — and
/// each carried member goes to the one chosen stem, under its own lowered
/// extension.  The hypotheses are what `move_file` ensures of every `Ok`
/// plan built with a destination listing (`family_covered` with no member
/// left in place); applied to the raw member and to the sidecar in turn, it
/// puts both under the same destination stem.
pub proof fn lemma_family_atomicity(
    src: Seq<DirEntry>,
    src_stem: Seq<char>,
    stem: Seq<char>,
    moves: Seq<MovePair>,
    j: int,
)
    requires
        stem.len() > 0,
        family_extensions_ok(src, src_stem),
        forall|k: int|
            0 <= k < moves.len() ==> is_family_move(src, src_stem, stem, #[trigger] moves[k]),
        family_covered(src, src_stem, stem, moves, false),
        0 <= j < src.len(),
        stem_of(src[j].name@) == src_stem,
    ensures
        exists|k: int|
            {
                &&& 0 <= k < moves.len()
                &&& (#[trigger] moves[k]).from@ == src[j].name@
                &&& moves[k].to@ == dest_name_of(stem, src[j].name@)
                &&& stem_of(moves[k].to@) == stem
            },
{
    let k = choose|k: int|
        0 <= k < moves.len() && (#[trigger] moves[k]).from@ == src[j].name@;
    assert(is_family_move(src, src_stem, stem, moves[k]));
    let w = choose|w: int|
        {
            &&& 0 <= w < src.len()
            &&& moves[k].from@ == (#[trigger] src[w].name@)
            &&& stem_of(src[w].name@) == src_stem
            &&& moves[k].to@ == dest_name_of(stem, src[w].name@)
        };
    assert(src[w].name@ == src[j].name@);
    lemma_dest_name_stem(stem, src[j].name@);
    assert(0 <= k < moves.len() && moves[k].from@ == src[j].name@ && moves[k].to@ == dest_name_of(
        stem,
        src[j].name@,
    ) && stem_of(moves[k].to@) == stem);
}

/// Idempotence: a rerun on an already-relocated family plans no move.
/// The hypotheses are what `move_file` ensures of a plan built with no
/// destination listing (the file already stands in its date directory, so
/// it stays): every planned move carries a family member to its destination
/// name, no planned move is a no-op — and when every member already bears
/// its destination name under the chosen stem, nothing is left to plan.
pub proof fn lemma_idempotent_rerun(
    src: Seq<DirEntry>,
    src_stem: Seq<char>,
    stem: Seq<char>,
    moves: Seq<MovePair>,
)
    requires
        forall|k: int| 0 <= k < moves.len() ==> is_family_move(src, src_stem, stem, #[trigger] moves[k]),
        forall|k: int| 0 <= k < moves.len() ==> (#[trigger] moves[k]).from@ != moves[k].to@,
        forall|j: int|
            0 <= j < src.len() && stem_of(#[trigger] src[j].name@) == src_stem ==> dest_name_of(
                stem,
                src[j].name@,
            ) == src[j].name@,
    ensures
        moves.len() == 0,
{
    if moves.len() > 0 {
        assert(is_family_move(src, src_stem, stem, moves[0]));
        let w = choose|w: int|
            {
                &&& 0 <= w < src.len()
                &&& moves[0].from@ == (#[trigger] src[w].name@)
                &&& stem_of(src[w].name@) == src_stem
                &&& moves[0].to@ == dest_name_of(stem, src[w].name@)
            };
        assert(moves[0].to@ == src[w].name@);
        assert(moves[0].from@ == moves[0].to@);
    }
}

/// An unpadded decimal rendering denotes the number back, and is never
/// empty.
proof fn lemma_dec_digits_val(n: int)
    requires
        n >= 0,
    ensures
        crate::codec::digits_val(dec_digits(n)) == n,
        dec_digits(n).len() >= 1,
    decreases n,
{
    if n < 10 {
        let s = dec_digits(n);
        assert(s.drop_last() =~= Seq::<char>::empty());
        assert(crate::codec::digits_val(Seq::<char>::empty()) == 0);
        assert(crate::codec::digits_val(s) == crate::codec::digit_val(digit_char(n)));
    } else {
        lemma_dec_digits_val(n / 10);
        let s = dec_digits(n);
        assert(s.drop_last() =~= dec_digits(n / 10));
        assert(crate::codec::digits_val(s) == crate::codec::digits_val(dec_digits(n / 10)) * 10
            + crate::codec::digit_val(digit_char(n % 10)));
        vstd::arithmetic::div_mod::lemma_fundamental_div_mod(n, 10);
    }
}

/// Distinct attempts always probe distinct candidate stems.
proof fn lemma_candidate_injective(
    mode: Mode,
    ts: CalendarTimestamp,
    stem: Seq<char>,
    i: int,
    j: int,
)
    requires
        relocatable(mode, ts),
        0 <= i < j,
        mode_renames(mode) ==> sec_of_day(ts) + j < 100000,
    ensures
        candidate(mode, ts, stem, i) != candidate(mode, ts, stem, j),
{
    if mode_renames(mode) {
        let a = rename_candidate(ts, i);
        let b = rename_candidate(ts, j);
        crate::codec::lemma_digits5_val(sec_of_day(ts) + i);
        crate::codec::lemma_digits5_val(sec_of_day(ts) + j);
        if a == b {
            assert(a.skip(3) =~= crate::codec::digits5(sec_of_day(ts) + i));
            assert(b.skip(3) =~= crate::codec::digits5(sec_of_day(ts) + j));
            assert(crate::codec::digits_val(a.skip(3)) == sec_of_day(ts) + i);
            assert(crate::codec::digits_val(b.skip(3)) == sec_of_day(ts) + j);
        }
    } else {
        let a = move_candidate(stem, i);
        let b = move_candidate(stem, j);
        lemma_dec_digits_val(j);
        if a == b {
            if i == 0 {
                assert(b.len() >= stem.len() + 2);
            } else {
                lemma_dec_digits_val(i);
                assert(a.skip(stem.len() as int + 1) =~= dec_digits(i));
                assert(b.skip(stem.len() as int + 1) =~= dec_digits(j));
                assert(crate::codec::digits_val(dec_digits(i)) == crate::codec::digits_val(
                    dec_digits(j),
                ));
            }
        }
    }
}

/// The name of the `w`-th entry of the two listings laid end to end.
spec fn combined_name(src: Seq<DirEntry>, dst: Seq<DirEntry>, w: int) -> Seq<char> {
    if w < src.len() {
        src[w].name@
    } else {
        dst[w - src.len()].name@
    }
}

/// The family verdict of the `w`-th entry of the two listings laid end to
/// end.
spec fn combined_family(src: Seq<DirEntry>, dst: Seq<DirEntry>, w: int) -> bool {
    if w < src.len() {
        src[w].same_family
    } else {
        dst[w - src.len()].same_family
    }
}

/// The entry that blocks attempt `i`.
spec fn blocker_of(
    mode: Mode,
    ts: CalendarTimestamp,
    stem: Seq<char>,
    src: Seq<DirEntry>,
    dst: Seq<DirEntry>,
    i: int,
) -> int {
    choose|w: int|
        {
            &&& 0 <= w < src.len() + dst.len()
            &&& stem_of(#[trigger] combined_name(src, dst, w)) == candidate(mode, ts, stem, i)
            &&& !combined_family(src, dst, w)
        }
}

/// The search budget suffices: some candidate within it is free.  Distinct
/// attempts probe distinct stems and a listed entry blocks only the one
/// candidate bearing its own stem, so the budget's candidates — one more
/// than there are entries — cannot all be blocked.  (In rename mode the
/// budget must fit the seconds run's five-digit room, which the premise
/// demands.)
pub proof fn lemma_search_completes(
    mode: Mode,
    ts: CalendarTimestamp,
    stem: Seq<char>,
    src: Seq<DirEntry>,
    dst: Seq<DirEntry>,
)
    requires
        relocatable(mode, ts),
        mode_renames(mode) ==> src.len() + dst.len() + 1 <= 100000 - sec_of_day(ts),
    ensures
        attempt_limit(mode, ts, src, dst) == src.len() + dst.len() + 1,
        exists|i: int|
            0 <= i < attempt_limit(mode, ts, src, dst) && free_at(
                src,
                dst,
                #[trigger] candidate(mode, ts, stem, i),
            ),
{
    let n = src.len() + dst.len() as int;
    if !(exists|i: int|
        0 <= i < n + 1 && free_at(src, dst, #[trigger] candidate(mode, ts, stem, i))) {
        assert forall|i: int| 0 <= i < n + 1 implies !free_at(
            src,
            dst,
            candidate(mode, ts, stem, i),
        ) by {
            assert(!(0 <= i < n + 1 && free_at(src, dst, candidate(mode, ts, stem, i))));
        }
        let f = |i: int| blocker_of(mode, ts, stem, src, dst, i);
        assert forall|i: int| 0 <= i < n + 1 implies 0 <= #[trigger] f(i) < n && stem_of(
            combined_name(src, dst, f(i)),
        ) == candidate(mode, ts, stem, i) && !combined_family(src, dst, f(i)) by {
            let c = candidate(mode, ts, stem, i);
            assert(!free_at(src, dst, c));
            if blocked(src, c) {
                let w = choose|w: int|
                    0 <= w < src.len() && stem_of(#[trigger] src[w].name@) == c
                        && !src[w].same_family;
                assert(combined_name(src, dst, w) == src[w].name@);
                assert(0 <= w < n && stem_of(combined_name(src, dst, w)) == c && !combined_family(
                    src,
                    dst,
                    w,
                ));
            } else {
                let w = choose|w: int|
                    0 <= w < dst.len() && stem_of(#[trigger] dst[w].name@) == c
                        && !dst[w].same_family;
                let ww = src.len() + w;
                assert(combined_name(src, dst, ww) == dst[w].name@);
                assert(0 <= ww < n && stem_of(combined_name(src, dst, ww)) == c
                    && !combined_family(src, dst, ww));
            }
        }
        let dom = vstd::set_lib::set_int_range(0, n + 1);
        vstd::set_lib::lemma_int_range(0, n + 1);
        assert(vstd::relations::injective_on(f, dom)) by {
            assert forall|i1: int, i2: int|
                dom.contains(i1) && dom.contains(i2) && #[trigger] f(i1) == #[trigger] f(i2)
                    implies i1 == i2 by {
                if i1 < i2 {
                    lemma_candidate_injective(mode, ts, stem, i1, i2);
                    assert(stem_of(combined_name(src, dst, f(i1))) == candidate(
                        mode,
                        ts,
                        stem,
                        i1,
                    ));
                    assert(stem_of(combined_name(src, dst, f(i2))) == candidate(
                        mode,
                        ts,
                        stem,
                        i2,
                    ));
                } else if i2 < i1 {
                    lemma_candidate_injective(mode, ts, stem, i2, i1);
                    assert(stem_of(combined_name(src, dst, f(i1))) == candidate(
                        mode,
                        ts,
                        stem,
                        i1,
                    ));
                    assert(stem_of(combined_name(src, dst, f(i2))) == candidate(
                        mode,
                        ts,
                        stem,
                        i2,
                    ));
                }
            }
        }
        let image = dom.map(f);
        vstd::set_lib::lemma_map_size(dom, image, f);
        assert(image.subset_of(vstd::set_lib::set_int_range(0, n))) by {
            assert forall|w: int| image.contains(w) implies vstd::set_lib::set_int_range(
                0,
                n,
            ).contains(w) by {
                let i = choose|i: int| dom.contains(i) && #[trigger] f(i) == w;
                assert(0 <= f(i) < n);
            }
        }
        vstd::set_lib::lemma_int_range(0, n);
        vstd::set_lib::lemma_len_subset(image, vstd::set_lib::set_int_range(0, n));
        assert(n + 1 <= n);
    }
}

} // verus!
