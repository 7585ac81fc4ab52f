//! Paths as sequences of segments.
//!
//! A path is held as the list of its segments, the pieces that a `/`
//! separates in its text. One path lies under another exactly when the
//! other's segments are a prefix of its own, so `a/bc` is not under `a/b`.

use vstd::prelude::*;
use vstd::string::*;

verus! {

/// A path as contracts speak of it: its segments, first to last.
pub type PathView = Seq<Seq<char>>;

/// The segments of a text: the pieces between its `/` characters. A text
/// without `/` is one segment; an empty piece is a segment too.
pub open spec fn split(text: Seq<char>) -> PathView
    decreases text.len(),
{
    if text.len() == 0 {
        seq![Seq::<char>::empty()]
    } else {
        let before = split(text.drop_last());
        if text.last() == '/' {
            before.push(Seq::<char>::empty())
        } else {
            before.drop_last().push(before.last().push(text.last()))
        }
    }
}

/// The text of a list of segments: the segments with a `/` between each two.
pub open spec fn joined(segments: PathView) -> Seq<char>
    decreases segments.len(),
{
    if segments.len() == 0 {
        Seq::<char>::empty()
    } else if segments.len() == 1 {
        segments[0]
    } else {
        joined(segments.drop_last()) + seq!['/'] + segments.last()
    }
}

/// The position of the last `.` in a name, if it has one.
pub open spec fn last_dot(name: Seq<char>) -> Option<int>
    decreases name.len(),
{
    if name.len() == 0 {
        None
    } else if name.last() == '.' {
        Some(name.len() - 1)
    } else {
        last_dot(name.drop_last())
    }
}

/// The extension of a file name: what follows its last `.`. A name without
/// `.`, one whose only `.` is its first character, and the name `..` have
/// none.
pub open spec fn extension(name: Seq<char>) -> Option<Seq<char>> {
    match last_dot(name) {
        Some(k) => if k == 0 || name == seq!['.', '.'] {
            None
        } else {
            Some(name.skip(k + 1))
        },
        None => None,
    }
}

/// Whether a path's last segment has the extension that `filter` names.
/// The filter is written with its dot, as in `.txt`.
pub open spec fn matches_filter(path: PathView, filter: Seq<char>) -> bool {
    &&& path.len() > 0
    &&& extension(path.last()) matches Some(ext)
    &&& seq!['.'] + ext == filter
}

/// The views of a list of strings.
pub open spec fn texts(strings: Seq<String>) -> Seq<Seq<char>> {
    Seq::new(strings.len(), |i: int| strings[i]@)
}

/// The characters of a text, one by one.
pub(crate) fn text_chars(text: &str) -> (chars: Vec<char>)
    ensures
        chars@ == text@,
{
    let mut chars: Vec<char> = Vec::new();
    for c in it: text.chars()
        invariant
            it.seq() == text@,
            chars@ == text@.take(it.index() as int),
    {
        chars.push(c);
        assert(chars@ =~= text@.take(it.index() + 1));
    }
    assert(text@.take(text@.len() as int) =~= text@);
    chars
}

/// A path in a tree, from its first segment to its last. Two paths are
/// equal where they have the same segments.
#[derive(Eq, PartialOrd, Ord, Debug)]
pub struct TreePath {
    segments: Vec<String>,
}

impl View for TreePath {
    type V = PathView;

    closed spec fn view(&self) -> PathView {
        texts(self.segments@)
    }
}

impl PartialEq for TreePath {
    fn eq(&self, other: &TreePath) -> (equal: bool) {
        self.same(other)
    }
}

impl vstd::std_specs::cmp::PartialEqSpecImpl for TreePath {
    open spec fn obeys_eq_spec() -> bool {
        true
    }

    open spec fn eq_spec(&self, other: &TreePath) -> bool {
        self@ == other@
    }
}

impl Clone for TreePath {
    fn clone(&self) -> (copy: TreePath)
        ensures
            copy@ == self@,
    {
        let mut segments: Vec<String> = Vec::new();
        let mut i: usize = 0;
        while i < self.segments.len()
            invariant
                i <= self.segments.len(),
                texts(segments@) == texts(self.segments@).take(i as int),
            decreases self.segments.len() - i,
        {
            let ghost before = texts(segments@);
            let segment = self.segments[i].clone();
            segments.push(segment);
            i += 1;
            assert(texts(segments@) =~= before.push(self.segments@[i - 1]@));
            assert(texts(segments@) =~= texts(self.segments@).take(i as int));
        }
        assert(texts(self.segments@).take(i as int) =~= texts(self.segments@));
        TreePath { segments }
    }
}

impl TreePath {
    /// The path that a text names: its segments are the pieces between the
    /// `/` characters of the text.
    pub fn parse(text: &str) -> (path: TreePath)
        ensures
            path@ == split(text@),
    {
        let chars = text_chars(text);
        let n = chars.len();
        let mut segments: Vec<String> = Vec::new();
        let mut start: usize = 0;
        let mut i: usize = 0;
        assert(text@.take(0) =~= Seq::<char>::empty());
        assert(texts(segments@).push(text@.subrange(0, 0)) =~= split(text@.take(0)));
        while i < n
            invariant
                chars@ == text@,
                n == chars.len(),
                start <= i <= n,
                texts(segments@).push(text@.subrange(start as int, i as int)) == split(
                    text@.take(i as int),
                ),
            decreases n - i,
        {
            let ghost before = texts(segments@);
            let ghost piece = text@.subrange(start as int, i as int);
            if chars[i] == '/' {
                segments.push(text.substring_char(start, i).to_owned());
                start = i + 1;
            }
            i += 1;
            proof {
                let head = text@.take(i as int);
                assert(head.drop_last() =~= text@.take(i - 1));
                assert(head.last() == text@[i - 1]);
                if text@[i - 1] == '/' {
                    assert(texts(segments@) =~= before.push(piece));
                    assert(text@.subrange(start as int, i as int) =~= Seq::<char>::empty());
                } else {
                    assert(before.push(piece).drop_last() =~= before);
                    assert(text@.subrange(start as int, i as int) =~= piece.push(text@[i - 1]));
                }
            }
        }
        segments.push(text.substring_char(start, n).to_owned());
        proof {
            assert(text@.take(n as int) =~= text@);
            assert(texts(segments@) =~= split(text@));
        }
        TreePath { segments }
    }

    /// The text of the path: its segments with a `/` between each two.
    pub fn display(&self) -> (text: String)
        ensures
            text@ == joined(self@),
    {
        let mut text = String::new();
        let mut i: usize = 0;
        assert(self@.take(0) =~= Seq::<Seq<char>>::empty());
        while i < self.segments.len()
            invariant
                i <= self.segments.len(),
                text@ == joined(self@.take(i as int)),
            decreases self.segments.len() - i,
        {
            if i > 0 {
                text.append("/");
            }
            text.append(self.segments[i].as_str());
            i += 1;
            proof {
                reveal_strlit("/");
                let head = self@.take(i as int);
                assert(head.drop_last() =~= self@.take(i - 1));
                assert(head.last() == self.segments@[i - 1]@);
                if i == 1 {
                    assert(text@ =~= joined(head));
                } else {
                    assert(text@ =~= joined(head));
                }
            }
        }
        assert(self@.take(i as int) =~= self@);
        text
    }

    /// How many segments the path has.
    pub fn len(&self) -> (n: usize)
        ensures
            n == self@.len(),
    {
        self.segments.len()
    }

    /// The path one step below this one: this path's segments, then `name`.
    pub fn join(&self, name: &str) -> (path: TreePath)
        ensures
            path@ == self@.push(name@),
    {
        let mut path = self.clone();
        path.segments.push(name.to_owned());
        assert(path@ =~= self@.push(name@));
        path
    }

    /// Whether two paths have the same segments.
    pub fn same(&self, other: &TreePath) -> (equal: bool)
        ensures
            equal == (self@ == other@),
    {
        if self.segments.len() != other.segments.len() {
            return false;
        }
        let mut i: usize = 0;
        while i < self.segments.len()
            invariant
                self.segments.len() == other.segments.len(),
                i <= self.segments.len(),
                self@.take(i as int) == other@.take(i as int),
            decreases self.segments.len() - i,
        {
            if self.segments[i] != other.segments[i] {
                assert(self@[i as int] != other@[i as int]);
                return false;
            }
            i += 1;
            assert(self@.take(i as int) =~= self@.take(i - 1).push(self@[i - 1]));
            assert(other@.take(i as int) =~= other@.take(i - 1).push(other@[i - 1]));
        }
        assert(self@.take(i as int) =~= self@);
        assert(other@.take(i as int) =~= other@);
        true
    }

    /// Whether this path is `base` or lies under it: whether the segments of
    /// `base` are the first segments of this path.
    pub fn starts_with(&self, base: &TreePath) -> (under: bool)
        ensures
            under == base@.is_prefix_of(self@),
    {
        if base.segments.len() > self.segments.len() {
            return false;
        }
        let mut i: usize = 0;
        while i < base.segments.len()
            invariant
                base.segments.len() <= self.segments.len(),
                i <= base.segments.len(),
                self@.take(i as int) == base@.take(i as int),
            decreases base.segments.len() - i,
        {
            if self.segments[i] != base.segments[i] {
                assert(self@[i as int] != base@[i as int]);
                return false;
            }
            i += 1;
            assert(self@.take(i as int) =~= self@.take(i - 1).push(self@[i - 1]));
            assert(base@.take(i as int) =~= base@.take(i - 1).push(base@[i - 1]));
        }
        assert(base@.take(i as int) =~= base@);
        assert(self@.subrange(0, base@.len() as int) =~= self@.take(i as int));
        true
    }

    /// Whether the last segment carries the extension that `filter` names,
    /// dot included. A path whose last segment has no extension matches no
    /// filter.
    pub fn has_extension(&self, filter: &str) -> (matches: bool)
        ensures
            matches == matches_filter(self@, filter@),
    {
        let count = self.segments.len();
        if count == 0 {
            return false;
        }
        let name = self.segments[count - 1].as_str();
        assert(self@.last() == name@);
        let chars = text_chars(name);
        let n = chars.len();
        if n == 2 && chars[0] == '.' && chars[1] == '.' {
            assert(chars@ =~= seq!['.', '.']);
            return false;
        }
        let mut k: usize = n;
        assert(chars@.take(n as int) =~= chars@);
        while k > 0 && chars[k - 1] != '.'
            invariant
                k <= n,
                n == chars.len(),
                last_dot(chars@) == last_dot(chars@.take(k as int)),
            decreases k,
        {
            assert(chars@.take(k as int).drop_last() =~= chars@.take(k - 1)) ;
            k -= 1;
        }
        if k <= 1 {
            proof {
                if k == 1 {
                    assert(chars@.take(1).last() == '.');
                } else {
                    assert(chars@.take(0).len() == 0);
                }
            }
            return false;
        }
        assert(chars@.take(k as int).last() == '.');
        assert(last_dot(chars@) == Some(k - 1));
        let tail = name.substring_char(k - 1, n).to_owned();
        let wanted = filter.to_owned();
        assert(tail@ =~= seq!['.'] + name@.skip(k as int));
        tail == wanted
    }
}

/// Joining the segments of a text gives the text back.
pub proof fn lemma_join_split(text: Seq<char>)
    ensures
        split(text).len() >= 1,
        joined(split(text)) == text,
    decreases text.len(),
{
    if text.len() > 0 {
        lemma_join_split(text.drop_last());
        let before = split(text.drop_last());
        if text.last() == '/' {
            assert(split(text).drop_last() =~= before);
            assert(joined(split(text)) =~= text.drop_last().push('/'));
        } else {
            let now = split(text);
            if before.len() == 1 {
                assert(joined(now) =~= before[0].push(text.last()));
            } else {
                assert(now.drop_last() =~= before.drop_last());
                assert(joined(now) =~= joined(before).push(text.last()));
            }
        }
        assert(text.drop_last().push(text.last()) =~= text);
    }
}

} // verus!
