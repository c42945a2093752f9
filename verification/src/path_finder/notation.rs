//! The path coordinate system used throughout the analysis. Repository-root-relative paths are
//! rendered in glyph notation: '@' is $CFG->dirroot and '#' is the repository root ($CFG->root,
//! the parent of dirroot since Moodle 5.1).
//!
//! The dirroot prefix is the path from the repository root to dirroot: 'public/' since Moodle
//! 5.1, or '' for earlier layouts where the two roots coincide.

use vstd::prelude::*;

use crate::text::concat;
use crate::text::copy;
use crate::text::join;
use crate::text::join_with;
use crate::text::same;
use crate::text::split;
use crate::text::split_at;
use crate::text::strip_prefix;
use crate::text::texts;
use crate::text::trim_end;
use crate::text::trim_end_of;
use crate::text::trim_start;
use crate::text::trim_start_of;

verus! {

/// The dirroot path relative to the repository root, with a leading slash (e.g. '/public'), for a
/// given dirroot prefix.
pub open spec fn segment_of(dirroot_prefix: Seq<char>) -> Seq<char> {
    let prefix = trim_end(trim_start(dirroot_prefix, '/'), '/');
    if prefix.len() == 0 {
        Seq::<char>::empty()
    } else {
        seq!['/'] + prefix
    }
}

/// A repository-root-relative path in glyph notation.
pub open spec fn glyph_of(segment: Seq<char>, path: Seq<char>) -> Seq<char> {
    if segment.is_prefix_of(path) {
        seq!['@'] + path.skip(segment.len() as int)
    } else {
        seq!['#'] + path
    }
}

/// The repository-root-relative path, without a leading slash, that a glyph path stands for.
pub open spec fn repo_path_of(segment: Seq<char>, glyph_path: Seq<char>) -> Seq<char> {
    let rest = glyph_path.skip(1);
    trim_start(if glyph_path[0] == '@' { segment + rest } else { rest }, '/')
}

/// The directories left open after one more path segment.
pub open spec fn descend(stack: Seq<Seq<char>>, part: Seq<char>) -> Seq<Seq<char>> {
    if part == "."@ {
        stack
    } else if part == ".."@ {
        if stack.len() > 0 && stack.last() != ".."@ {
            stack.drop_last()
        } else {
            stack.push(part)
        }
    } else if part.len() == 0 && stack.len() == 0 {
        stack
    } else {
        stack.push(part)
    }
}

/// The directories left open after all of `parts`.
pub open spec fn descend_all(parts: Seq<Seq<char>>) -> Seq<Seq<char>>
    decreases parts.len(),
{
    if parts.len() == 0 {
        parts
    } else {
        descend(descend_all(parts.drop_last()), parts.last())
    }
}

/// `path` with its '.' and '..' segments resolved.
pub open spec fn normalised(path: Seq<char>) -> Seq<char> {
    seq!['/'] + join(descend_all(split(path, '/')), seq!['/'])
}

/// Whether the '..' segments of `parts` are all at its start, it has no '.', and it does not start
/// with an empty segment.
pub open spec fn above_root_only(parts: Seq<Seq<char>>) -> bool {
    &&& forall|i: int| 0 <= i < parts.len() ==> #[trigger] parts[i] != "."@
    &&& forall|i: int, j: int|
        0 <= i < j < parts.len() && parts[j] == ".."@ ==> #[trigger] parts[i] == #[trigger] parts[j]
    &&& parts.len() > 0 ==> parts[0].len() > 0
}

/// How the two roots of a codebase lie to each other.
#[derive(Debug)]
pub struct PathNotation {
    /// The dirroot path relative to the repository root, with a leading slash (e.g. '/public').
    dirroot_segment: String,
}

impl PathNotation {
    /// The dirroot path relative to the repository root, with a leading slash; empty if the two
    /// roots coincide.
    pub closed spec fn segment(&self) -> Seq<char> {
        self.dirroot_segment@
    }

    /// The notation for a codebase with the given dirroot prefix.
    pub fn new(dirroot_prefix: &str) -> (notation: Self)
        ensures
            notation.segment() == segment_of(dirroot_prefix@),
    {
        let prefix = trim_end_of(&trim_start_of(dirroot_prefix, '/'), '/');
        proof {
            reveal_strlit("/");
            assert("/"@ =~= seq!['/']);
        }
        if prefix.as_str().is_empty() {
            PathNotation { dirroot_segment: String::new() }
        } else {
            PathNotation { dirroot_segment: concat("/", &prefix) }
        }
    }

    /// The notation for a codebase, given whether it has 'public/lib/setup.php'.
    pub fn from_root(has_public_setup: bool) -> (notation: Self)
        ensures
            notation.segment() == segment_of(crate::moodle::spec_dirroot_prefix(has_public_setup)),
    {
        PathNotation::new(crate::moodle::dirroot_prefix(has_public_setup))
    }

    /// The dirroot path relative to the repository root, with a leading slash.
    pub fn dirroot_segment(&self) -> (segment: &str)
        ensures
            segment@ == self.segment(),
    {
        &self.dirroot_segment
    }

    /// Renders a repository-root-relative path (with a leading slash, e.g. '/public/lib/x.php',
    /// '/config.php', or the bare dirroot segment '/public') in glyph notation.
    ///
    /// The dirroot string prefix becomes '@' by pure prefix substitution, so '@' stands for the
    /// same characters as dirroot: '/public/lib/x.php' => '@/lib/x.php', '/public' => '@', and a
    /// separator-less concat '/public{$dir}' => '@{$dir}'. Paths above dirroot keep '#', e.g.
    /// '/config.php' => '#/config.php'.
    pub fn to_glyph(&self, repo_relative_path: &str) -> (glyph_path: String)
        ensures
            glyph_path@ == glyph_of(self.segment(), repo_relative_path@),
    {
        proof {
            reveal_strlit("@");
            reveal_strlit("#");
            assert("@"@ =~= seq!['@']);
            assert("#"@ =~= seq!['#']);
        }
        match strip_prefix(repo_relative_path, &self.dirroot_segment) {
            Some(rest) => concat("@", &rest),
            None => concat("#", repo_relative_path),
        }
    }

    /// The inverse of [`Self::to_glyph`]: resolves a glyph path to a repository-root-relative
    /// path with no leading slash (the form used for filesystem 'file' values and component
    /// directories).
    ///
    /// '@' expands back to the dirroot segment, '#' to the repository root: '@/lib/x.php' =>
    /// 'public/lib/x.php', '#/lib/setup.php' => 'lib/setup.php', and the bare dirroot '@' =>
    /// 'public'. On pre-5.1 layouts (empty dirroot segment) the two coincide, so '@/lib/x.php' =>
    /// 'lib/x.php'.
    pub fn to_repo_path(&self, glyph_path: &str) -> (repo_path: String)
        requires
            glyph_path@.len() > 0,
            glyph_path@[0] < '\u{80}',
        ensures
            repo_path@ == repo_path_of(self.segment(), glyph_path@),
    {
        let glyphs = crate::text::chars_of(glyph_path);
        let rest = crate::text::string_of(&glyphs, 1, glyphs.len());
        let rooted = if glyphs[0] == '@' {
            concat(&self.dirroot_segment, &rest)
        } else {
            rest
        };
        trim_start_of(&rooted, '/')
    }

    /// Resolves '.' and '..' segments in a path, returning it with a single leading slash. A
    /// trailing slash is preserved. This is a pure path operation, independent of the coordinate
    /// system.
    ///
    /// A '..' that climbs above the start of the path is kept as a leading '..' rather than
    /// dropped, so a path pointing outside the repository stays visibly outside it instead of
    /// being clamped onto an unrelated location inside it.
    pub fn normalise(path: &str) -> (r: String)
        ensures
            r@ == normalised(path@),
    {
        let parts = split_at(path, '/');
        let ghost all = texts(parts@);
        let mut stack: Vec<String> = Vec::new();
        let mut i: usize = 0;
        assert(texts(stack@) =~= descend_all(all.take(0)));
        while i < parts.len()
            invariant
                i <= parts.len(),
                all == texts(parts@),
                texts(stack@) == descend_all(all.take(i as int)),
            decreases parts.len() - i,
        {
            let part = &parts[i];
            let ghost before = texts(stack@);
            assert(all.take(i + 1).drop_last() == all.take(i as int));
            assert(all.take(i + 1).last() == part@);
            if !same(part, ".") {
                if same(part, "..") {
                    if stack.len() > 0 && !same(&stack[stack.len() - 1], "..") {
                        stack.pop();
                        assert(texts(stack@) =~= before.drop_last());
                    } else {
                        stack.push(copy(part));
                        assert(texts(stack@) =~= before.push(part@));
                    }
                } else if !(part.as_str().is_empty() && stack.len() == 0) {
                    stack.push(copy(part));
                    assert(texts(stack@) =~= before.push(part@));
                }
            }
            i += 1;
        }
        assert(all.take(i as int) == all);
        proof {
            reveal_strlit("/");
            assert("/"@ =~= seq!['/']);
        }
        concat("/", &join_with(&stack, "/"))
    }
}

/// Whether `text` starts with one slash that no other slash follows.
pub open spec fn is_rooted(text: Seq<char>) -> bool {
    text.len() > 0 && text[0] == '/' && !(text.len() > 1 && text[1] == '/')
}

/// Trimming takes away nothing from a text that starts with another character, and leaves one that
/// starts with another character.
proof fn trim_start_facts(text: Seq<char>, c: char)
    ensures
        trim_start(text, c).len() > 0 ==> trim_start(text, c)[0] != c,
        text.len() > 0 && text[0] != c ==> trim_start(text, c) == text,
    decreases text.len(),
{
    if text.len() > 0 && text[0] == c {
        trim_start_facts(text.drop_first(), c);
    }
}

/// What trimming the end leaves is a prefix.
proof fn trim_end_is_prefix(text: Seq<char>, c: char)
    ensures
        trim_end(text, c).len() <= text.len(),
        trim_end(text, c) == text.take(trim_end(text, c).len() as int),
    decreases text.len(),
{
    if text.len() > 0 && text.last() == c {
        trim_end_is_prefix(text.drop_last(), c);
        let kept = trim_end(text, c).len() as int;
        assert(text.drop_last().take(kept) =~= text.take(kept));
    } else {
        assert(text.take(text.len() as int) =~= text);
    }
}

/// A dirroot segment is empty, or starts with exactly one slash.
proof fn segment_is_rooted(dirroot_prefix: Seq<char>)
    ensures
        segment_of(dirroot_prefix).len() == 0 || is_rooted(segment_of(dirroot_prefix)) && segment_of(
            dirroot_prefix,
        ).len() > 1,
{
    trim_start_facts(dirroot_prefix, '/');
    trim_end_is_prefix(trim_start(dirroot_prefix, '/'), '/');
}

/// Reading a glyph path back gives the path that was rendered, without its leading slashes.
pub proof fn repo_path_undoes_glyph(segment: Seq<char>, path: Seq<char>)
    ensures
        repo_path_of(segment, glyph_of(segment, path)) == trim_start(path, '/'),
{
    let glyph = glyph_of(segment, path);
    if segment.is_prefix_of(path) {
        assert(glyph.skip(1) =~= path.skip(segment.len() as int));
        assert(segment + path.skip(segment.len() as int) =~= path);
    } else {
        assert(glyph.skip(1) =~= path);
    }
}

/// Rendering the path that a glyph path stands for gives that glyph path, provided it has one
/// slash after its glyph (after '@', nothing is asked where dirroot is not the repository root)
/// and does not write '#' for a path inside dirroot.
pub proof fn glyph_undoes_repo_path(dirroot_prefix: Seq<char>, glyph_path: Seq<char>)
    requires
        glyph_path.len() > 0,
        glyph_path[0] == '@' || glyph_path[0] == '#',
        is_rooted(glyph_path.skip(1)) || glyph_path[0] == '@' && segment_of(dirroot_prefix).len() > 0,
        glyph_path[0] == '#' ==> !segment_of(dirroot_prefix).is_prefix_of(glyph_path.skip(1)),
    ensures
        ({
            let segment = segment_of(dirroot_prefix);
            glyph_of(segment, seq!['/'] + repo_path_of(segment, glyph_path)) == glyph_path
        }),
{
    let segment = segment_of(dirroot_prefix);
    segment_is_rooted(dirroot_prefix);
    let rest = glyph_path.skip(1);
    let rooted = if glyph_path[0] == '@' {
        segment + rest
    } else {
        rest
    };
    if segment.len() == 0 {
        assert(segment + rest =~= rest);
    } else {
        assert((segment + rest).drop_first()[0] == segment[1]);
    }
    assert(is_rooted(rooted));
    trim_start_facts(rooted.drop_first(), '/');
    if rooted.len() == 1 {
        assert(rooted.drop_first() =~= Seq::<char>::empty());
    }
    assert(trim_start(rooted, '/') == rooted.drop_first());
    assert(seq!['/'] + rooted.drop_first() =~= rooted);
    if glyph_path[0] == '@' {
        assert((segment + rest).subrange(0, segment.len() as int) =~= segment);
        assert((segment + rest).skip(segment.len() as int) =~= rest);
    }
    assert(glyph_of(segment, rooted) =~= glyph_path);
}

/// Descending leaves '..' at the start only, no '.', and no empty first segment; and it keeps the
/// segments free of slashes.
proof fn descend_all_facts(parts: Seq<Seq<char>>)
    requires
        forall|i: int| 0 <= i < parts.len() ==> !(#[trigger] parts[i]).contains('/'),
    ensures
        above_root_only(descend_all(parts)),
        forall|i: int| 0 <= i < descend_all(parts).len() ==> !(#[trigger] descend_all(parts)[i]).contains('/'),
    decreases parts.len(),
{
    if parts.len() > 0 {
        assert forall|i: int| 0 <= i < parts.drop_last().len() implies !(#[trigger] parts.drop_last()[i]).contains(
            '/',
        ) by {
            assert(!parts[i].contains('/'));
        }
        descend_all_facts(parts.drop_last());
        let before = descend_all(parts.drop_last());
        let after = descend_all(parts);
        reveal_strlit(".");
        reveal_strlit("..");
        assert("."@.len() != ".."@.len());
        assert(!parts[parts.len() - 1].contains('/'));
        assert forall|i: int, j: int| 0 <= i < j < after.len() && after[j] == ".."@ implies #[trigger] after[i]
            == #[trigger] after[j] by {
            if j < before.len() {
                assert(before[i] == before[j]);
            } else {
                assert(before.last() == ".."@);
                if i < before.len() - 1 {
                    assert(before[i] == before[before.len() - 1]);
                }
            }
        }
    }
}

/// Descending through segments that are already resolved changes nothing.
pub proof fn descend_all_keeps_resolved(parts: Seq<Seq<char>>)
    requires
        above_root_only(parts),
    ensures
        descend_all(parts) == parts,
    decreases parts.len(),
{
    if parts.len() > 0 {
        let front = parts.drop_last();
        assert forall|i: int| 0 <= i < front.len() implies #[trigger] front[i] != "."@ by {
            assert(parts[i] != "."@);
        }
        assert forall|i: int, j: int| 0 <= i < j < front.len() && front[j] == ".."@ implies #[trigger] front[i]
            == #[trigger] front[j] by {
            assert(parts[i] == parts[j]);
        }
        descend_all_keeps_resolved(front);
        assert(parts[parts.len() - 1] != "."@);
        if parts.last() == ".."@ && front.len() > 0 {
            assert(parts[front.len() - 1] == parts[parts.len() - 1]);
        }
        assert(front.push(parts.last()) =~= parts);
    }
}

/// Adding an empty segment in front changes nothing.
pub proof fn descend_all_skips_leading_empty(parts: Seq<Seq<char>>)
    ensures
        descend_all(seq![Seq::<char>::empty()] + parts) == descend_all(parts),
    decreases parts.len(),
{
    let longer = seq![Seq::<char>::empty()] + parts;
    reveal_strlit(".");
    reveal_strlit("..");
    if parts.len() > 0 {
        assert(longer.drop_last() =~= seq![Seq::<char>::empty()] + parts.drop_last());
        descend_all_skips_leading_empty(parts.drop_last());
    } else {
        assert(longer.drop_last() =~= Seq::<Seq<char>>::empty());
        assert(descend_all(longer.drop_last()) =~= parts);
    }
}

/// A normalised path starts with exactly one slash; what follows has no '.' segment, and '..' only
/// at its start. Unless it is the bare root, its segments are those that were left open.
pub proof fn normalised_is_resolved(path: Seq<char>)
    ensures
        is_rooted(normalised(path)),
        above_root_only(descend_all(split(path, '/'))),
        normalised(path).len() > 1 ==> split(normalised(path).drop_first(), '/') == descend_all(split(path, '/')),
{
    crate::text::split_parts_hold_no_separator(path, '/');
    let open = descend_all(split(path, '/'));
    descend_all_facts(split(path, '/'));
    let joined = join(open, seq!['/']);
    assert(normalised(path).drop_first() =~= joined);
    if open.len() > 0 {
        crate::text::split_undoes_join(open, '/');
        join_starts_with_first(open);
        assert(!open[0].contains('/'));
        assert(open[0][0] != '/');
    }
}

/// A joined text starts with its first piece.
pub proof fn join_starts_with_first(parts: Seq<Seq<char>>)
    requires
        parts.len() > 0,
    ensures
        join(parts, seq!['/']).len() >= parts[0].len(),
        forall|i: int| 0 <= i < parts[0].len() ==> join(parts, seq!['/'])[i] == parts[0][i],
    decreases parts.len(),
{
    if parts.len() > 1 {
        join_starts_with_first(parts.drop_last());
    }
}

/// Normalising a normalised path changes nothing.
pub proof fn normalised_is_stable(path: Seq<char>)
    ensures
        normalised(normalised(path)) == normalised(path),
{
    let once = normalised(path);
    let open = descend_all(split(path, '/'));
    normalised_is_resolved(path);
    let empty = Seq::<char>::empty();
    crate::text::split_around_separator(empty, once.drop_first(), '/');
    assert(empty + seq!['/'] + once.drop_first() =~= once);
    assert(split(empty, '/') =~= seq![empty]);
    descend_all_skips_leading_empty(split(once.drop_first(), '/'));
    if once.len() > 1 {
        descend_all_keeps_resolved(open);
    } else {
        let none = Seq::<Seq<char>>::empty();
        assert(once.drop_first() =~= empty);
        descend_all_skips_leading_empty(none);
        assert(seq![empty] + none =~= seq![empty]);
        assert(descend_all(split(once, '/')) == none);
        assert(once =~= seq!['/']);
        assert(join(none, seq!['/']) =~= empty);
        assert(normalised(once) =~= once);
    }
}

/// A path that ends with a slash still does when normalised.
pub proof fn normalised_keeps_trailing_slash(path: Seq<char>)
    requires
        path.len() > 0,
        path.last() == '/',
    ensures
        normalised(path).last() == '/',
{
    let parts = split(path, '/');
    let before = split(path.drop_last(), '/');
    let empty = Seq::<char>::empty();
    reveal_strlit(".");
    reveal_strlit("..");
    assert("."@.len() == 1 && ".."@.len() == 2);
    assert(parts.drop_last() =~= before);
    assert(parts.last() == empty);
    let open = descend_all(before);
    if open.len() > 0 {
        assert(descend_all(parts) == open.push(empty));
        assert(open.push(empty).drop_last() =~= open);
        assert(join(open.push(empty), seq!['/']) =~= join(open, seq!['/']) + seq!['/']);
    } else {
        assert(descend_all(parts) == open);
        assert(join(open, seq!['/']) =~= empty);
    }
}

} // verus!
