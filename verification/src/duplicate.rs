//! Files with the same content: the signature of each file, the files
//! grouped by signature, and the report of the groups of two or more.

use crate::file_tree::{file_paths, paths, FileTree};
use crate::path::{joined, texts, PathView, TreePath};
use vstd::prelude::*;
use vstd::string::*;

verus! {

/// What `sha256::digest` gives for `data`: the SHA-256 digest of the bytes,
/// written in lowercase hexadecimal digits.
pub uninterp spec fn sha256_hex(data: Seq<u8>) -> Seq<char>;

/// `sha256::digest` on a slice of bytes. The crate hashes the bytes with
/// SHA-256 and writes the 32 bytes of the digest in lowercase hexadecimal;
/// the contract gives that text its name and claims nothing more of it.
#[verifier::external_body]
fn digest(data: &[u8]) -> (hex: String)
    ensures
        hex@ == sha256_hex(data@),
{
    sha256::digest(data)
}

/// The line that stands above each group of a report.
pub open spec fn header() -> Seq<char> {
    "Les fichiers suivant sont identique :"@
}

/// The views of a list of signatures with paths.
pub open spec fn signed_view(signed: Seq<(String, TreePath)>) -> Seq<(Seq<char>, PathView)> {
    Seq::new(signed.len(), |i: int| (signed[i].0@, signed[i].1@))
}

/// The views of a list of groups.
pub open spec fn groups_view(groups: Seq<(String, Vec<TreePath>)>) -> Seq<
    (Seq<char>, Seq<PathView>),
> {
    Seq::new(groups.len(), |k: int| (groups[k].0@, paths(groups[k].1@)))
}

/// The paths of what was read.
pub open spec fn read_paths(read: Seq<(TreePath, Vec<u8>)>) -> Seq<PathView> {
    Seq::new(read.len(), |i: int| read[i].0@)
}

/// Each file that was read with the signature of its content.
pub open spec fn signed_files(read: Seq<(TreePath, Vec<u8>)>) -> Seq<(Seq<char>, PathView)> {
    Seq::new(read.len(), |i: int| (sha256_hex(read[i].1@), read[i].0@))
}

/// Where the group of a signature stands: the number of groups before the
/// first one with this signature, which is the number of all groups where
/// none has it.
pub open spec fn slot(groups: Seq<(Seq<char>, Seq<PathView>)>, signature: Seq<char>) -> int
    decreases groups.len(),
{
    if groups.len() == 0 {
        0
    } else if groups[0].0 == signature {
        0
    } else {
        1 + slot(groups.skip(1), signature)
    }
}

/// The files grouped by signature. The groups stand in the order in which
/// their signatures first occur, and the paths of a group in the order of the
/// files.
pub open spec fn grouped(signed: Seq<(Seq<char>, PathView)>) -> Seq<(Seq<char>, Seq<PathView>)>
    decreases signed.len(),
{
    if signed.len() == 0 {
        Seq::empty()
    } else {
        let before = grouped(signed.drop_last());
        let (signature, path) = signed.last();
        let at = slot(before, signature);
        if 0 <= at < before.len() {
            before.update(at, (signature, before[at].1.push(path)))
        } else {
            before.push((signature, seq![path]))
        }
    }
}

/// The paths of the files that have a signature, in the order of the files.
pub open spec fn members(signed: Seq<(Seq<char>, PathView)>, signature: Seq<char>) -> Seq<PathView>
    decreases signed.len(),
{
    if signed.len() == 0 {
        Seq::empty()
    } else if signed.last().0 == signature {
        members(signed.drop_last(), signature).push(signed.last().1)
    } else {
        members(signed.drop_last(), signature)
    }
}

/// The block of a group in a report: the header, then the text of each path.
pub open spec fn block(group: Seq<PathView>) -> Seq<Seq<char>> {
    seq![header()] + Seq::new(group.len(), |m: int| joined(group[m]))
}

/// The report of the groups: the blocks of the groups of two or more files,
/// in the order of the groups.
pub open spec fn duplicate_report(groups: Seq<(Seq<char>, Seq<PathView>)>) -> Seq<Seq<char>>
    decreases groups.len(),
{
    if groups.len() == 0 {
        Seq::empty()
    } else if groups.last().1.len() >= 2 {
        duplicate_report(groups.drop_last()) + block(groups.last().1)
    } else {
        duplicate_report(groups.drop_last())
    }
}

/// The files grouped by signature, each group with the signature that its
/// files share.
pub fn group_by_signature(signed: &Vec<(String, TreePath)>) -> (groups: Vec<
    (String, Vec<TreePath>),
>)
    ensures
        groups_view(groups@) == grouped(signed_view(signed@)),
{
    let mut groups: Vec<(String, Vec<TreePath>)> = Vec::new();
    let mut i: usize = 0;
    assert(groups_view(groups@) =~= grouped(signed_view(signed@).take(0)));
    while i < signed.len()
        invariant
            i <= signed.len(),
            groups_view(groups@) == grouped(signed_view(signed@).take(i as int)),
        decreases signed.len() - i,
    {
        let ghost before = groups_view(groups@);
        let ghost signature = signed@[i as int].0@;
        let ghost path = signed@[i as int].1@;
        proof {
            let head = signed_view(signed@).take(i + 1);
            assert(head.drop_last() =~= signed_view(signed@).take(i as int));
            assert(head.last() == (signature, path));
        }
        let mut at: usize = 0;
        assert(before.skip(0) =~= before);
        while at < groups.len() && groups[at].0 != signed[i].0
            invariant
                at <= groups.len(),
                i < signed.len(),
                before == groups_view(groups@),
                signature == signed@[i as int].0@,
                slot(before, signature) == at + slot(before.skip(at as int), signature),
            decreases groups.len() - at,
        {
            assert(before.skip(at as int)[0] == before[at as int]);
            assert(before.skip(at as int).skip(1) =~= before.skip(at + 1));
            at += 1;
        }
        if at < groups.len() {
            assert(before.skip(at as int)[0] == before[at as int]);
            let mut group = groups.remove(at);
            group.1.push(signed[i].1.clone());
            assert(paths(group.1@) =~= before[at as int].1.push(path));
            groups.insert(at, group);
            assert(groups_view(groups@) =~= before.update(
                at as int,
                (signature, before[at as int].1.push(path)),
            ));
        } else {
            assert(before.skip(at as int) =~= Seq::empty());
            let mut group: Vec<TreePath> = Vec::new();
            group.push(signed[i].1.clone());
            assert(paths(group@) =~= seq![path]);
            groups.push((signed[i].0.clone(), group));
            assert(groups_view(groups@) =~= before.push((signature, seq![path])));
        }
        i += 1;
    }
    assert(signed_view(signed@).take(i as int) =~= signed_view(signed@));
    groups
}

/// The lines of the report of the groups: for each group of two or more
/// files, the header and then one line for each path of the group.
pub fn duplicate_lines(groups: &Vec<(String, Vec<TreePath>)>) -> (lines: Vec<String>)
    ensures
        texts(lines@) == duplicate_report(groups_view(groups@)),
{
    let mut lines: Vec<String> = Vec::new();
    let mut k: usize = 0;
    assert(texts(lines@) =~= duplicate_report(groups_view(groups@).take(0)));
    while k < groups.len()
        invariant
            k <= groups.len(),
            texts(lines@) == duplicate_report(groups_view(groups@).take(k as int)),
        decreases groups.len() - k,
    {
        let ghost before = texts(lines@);
        let ghost group = paths(groups@[k as int].1@);
        proof {
            let head = groups_view(groups@).take(k + 1);
            assert(head.drop_last() =~= groups_view(groups@).take(k as int));
            assert(head.last().1 == group);
        }
        if groups[k].1.len() > 1 {
            lines.push("Les fichiers suivant sont identique :".to_owned());
            let mut m: usize = 0;
            assert(texts(lines@) =~= before + block(group).take(1));
            while m < groups[k].1.len()
                invariant
                    k < groups.len(),
                    m <= groups@[k as int].1.len(),
                    group == paths(groups@[k as int].1@),
                    texts(lines@) == before + block(group).take(m + 1),
                decreases groups@[k as int].1.len() - m,
            {
                let ghost sofar = texts(lines@);
                lines.push(groups[k].1[m].display());
                m += 1;
                assert(texts(lines@) =~= sofar.push(joined(group[m - 1])));
                assert(block(group).take(m + 1) =~= block(group).take(m as int).push(
                    joined(group[m - 1]),
                ));
            }
            assert(block(group).take(m + 1) =~= block(group));
        }
        k += 1;
    }
    assert(groups_view(groups@).take(k as int) =~= groups_view(groups@));
    lines
}

impl FileTree {
    /// The files of the tree grouped by the signature of their content.
    ///
    /// `read` holds each file of the tree with the bytes that were read from
    /// it, in the order in which `files` gives the paths. Where it does not
    /// hold exactly those paths in that order, there is no result.
    pub fn signature(&self, read: &Vec<(TreePath, Vec<u8>)>) -> (groups: Option<
        Vec<(String, Vec<TreePath>)>,
    >)
        ensures
            groups is Some <==> read_paths(read@) == file_paths(self.nodes()),
            groups matches Some(found) ==> groups_view(found@) == grouped(signed_files(read@)),
    {
        let files = self.files();
        assert(paths(files@).len() == files@.len());
        if read.len() != files.len() {
            return None;
        }
        let mut signed: Vec<(String, TreePath)> = Vec::new();
        let mut i: usize = 0;
        while i < read.len()
            invariant
                i <= read.len(),
                read.len() == files.len(),
                paths(files@) == file_paths(self.nodes()),
                read_paths(read@).take(i as int) == paths(files@).take(i as int),
                signed_view(signed@) == signed_files(read@).take(i as int),
            decreases read.len() - i,
        {
            if !read[i].0.same(&files[i]) {
                assert(read_paths(read@)[i as int] != paths(files@)[i as int]);
                return None;
            }
            let ghost before = signed_view(signed@);
            signed.push((digest(read[i].1.as_slice()), read[i].0.clone()));
            i += 1;
            assert(signed_view(signed@) =~= before.push(signed_files(read@)[i - 1]));
            assert(signed_view(signed@) =~= signed_files(read@).take(i as int));
            assert(read_paths(read@).take(i as int) =~= read_paths(read@).take(i - 1).push(
                read@[i - 1].0@,
            ));
            assert(paths(files@).take(i as int) =~= paths(files@).take(i - 1).push(
                files@[i - 1]@,
            ));
        }
        assert(signed_files(read@).take(i as int) =~= signed_files(read@));
        assert(read_paths(read@).take(i as int) =~= read_paths(read@));
        assert(paths(files@).take(i as int) =~= paths(files@));
        Some(group_by_signature(&signed))
    }
}

/// What `slot` finds: the first group with the signature, or the end of the
/// groups where none has it.
pub proof fn lemma_slot(groups: Seq<(Seq<char>, Seq<PathView>)>, signature: Seq<char>)
    ensures
        0 <= slot(groups, signature) <= groups.len(),
        slot(groups, signature) < groups.len() ==> groups[slot(groups, signature)].0 == signature,
        forall|k: int| 0 <= k < slot(groups, signature) ==> (#[trigger] groups[k]).0 != signature,
    decreases groups.len(),
{
    if groups.len() > 0 && groups[0].0 != signature {
        let rest = groups.skip(1);
        lemma_slot(rest, signature);
        assert forall|k: int| 0 <= k < slot(groups, signature) implies (#[trigger] groups[k]).0
            != signature by {
            if k > 0 {
                assert(rest[k - 1] == groups[k]);
            }
        }
    }
}

/// What grouping does. No two groups share a signature. Each group holds the
/// paths of all the files with its signature, in the order of the files, and
/// at least one. Each file's signature has its group. So two files with the
/// same content stand in one group, and a file whose signature no other file
/// has stands alone in its group and is left out of the report.
pub proof fn lemma_grouped(signed: Seq<(Seq<char>, PathView)>)
    ensures
        forall|a: int, b: int|
            0 <= a < b < grouped(signed).len() ==> (#[trigger] grouped(signed)[a]).0 != (
            #[trigger] grouped(signed)[b]).0,
        forall|k: int|
            0 <= k < grouped(signed).len() ==> (#[trigger] grouped(signed)[k]).1 == members(
                signed,
                grouped(signed)[k].0,
            ) && grouped(signed)[k].1.len() >= 1,
        forall|i: int|
            0 <= i < signed.len() ==> 0 <= slot(grouped(signed), (#[trigger] signed[i]).0)
                < grouped(signed).len(),
    decreases signed.len(), 0nat,
{
    if signed.len() > 0 {
        let rest = signed.drop_last();
        let before = grouped(rest);
        let (signature, path) = signed.last();
        let at = slot(before, signature);
        let now = grouped(signed);
        lemma_grouped(rest);
        lemma_slot(before, signature);
        if 0 <= at < before.len() {
            assert forall|k: int| 0 <= k < now.len() implies (#[trigger] now[k]).1 == members(
                signed,
                now[k].0,
            ) && now[k].1.len() >= 1 by {
                if k != at {
                    assert(now[k] == before[k]);
                    if k < at {
                        assert(before[k].0 != signature);
                    } else {
                        assert(before[at].0 != before[k].0);
                    }
                }
            }
            assert forall|a: int, b: int| 0 <= a < b < now.len() implies (#[trigger] now[a]).0 != (
            #[trigger] now[b]).0 by {
                assert(now[a].0 == before[a].0 && now[b].0 == before[b].0);
            }
        } else {
            assert(members(rest, signature) =~= Seq::<PathView>::empty()) by {
                lemma_members_none(rest, signature);
            }
            assert forall|k: int| 0 <= k < now.len() implies (#[trigger] now[k]).1 == members(
                signed,
                now[k].0,
            ) && now[k].1.len() >= 1 by {
                if k < before.len() {
                    assert(now[k] == before[k]);
                    assert(before[k].0 != signature);
                }
            }
            assert forall|a: int, b: int| 0 <= a < b < now.len() implies (#[trigger] now[a]).0 != (
            #[trigger] now[b]).0 by {
                if b < before.len() {
                    assert(now[a] == before[a] && now[b] == before[b]);
                } else {
                    assert(now[a] == before[a]);
                    assert(before[a].0 != signature);
                }
            }
        }
        assert forall|i: int| 0 <= i < signed.len() implies 0 <= slot(
            now,
            (#[trigger] signed[i]).0,
        ) < now.len() by {
            let wanted = signed[i].0;
            lemma_slot(now, wanted);
            if i < rest.len() {
                assert(rest[i] == signed[i]);
                let was = slot(before, wanted);
                lemma_slot(before, wanted);
                assert(now[was].0 == wanted);
            } else if 0 <= at < before.len() {
                assert(now[at].0 == wanted);
            } else {
                assert(now[before.len() as int].0 == wanted);
            }
        }
    }
}

/// A signature that stands where no group has it is the signature of no
/// file.
proof fn lemma_members_none(signed: Seq<(Seq<char>, PathView)>, signature: Seq<char>)
    requires
        slot(grouped(signed), signature) >= grouped(signed).len(),
    ensures
        members(signed, signature) == Seq::<PathView>::empty(),
    decreases signed.len(), 1nat,
{
    lemma_grouped(signed);
    lemma_slot(grouped(signed), signature);
    if signed.len() > 0 {
        let rest = signed.drop_last();
        let i = signed.len() - 1;
        assert(0 <= slot(grouped(signed), signed[i].0) < grouped(signed).len());
        lemma_slot(grouped(signed), signed[i].0);
        assert(signed.last().0 != signature);
        lemma_grouped(rest);
        lemma_slot(grouped(rest), signature);
        if slot(grouped(rest), signature) < grouped(rest).len() {
            let was = slot(grouped(rest), signature);
            let (other, path) = signed.last();
            let at = slot(grouped(rest), other);
            lemma_slot(grouped(rest), other);
            assert(grouped(signed)[was].0 == signature);
        }
        lemma_members_none(rest, signature);
    }
}

/// Two files with the same bytes have the same signature, and so stand in
/// one group: the group of their signature holds both, and holds two files
/// at least where they are two.
pub proof fn lemma_same_content(read: Seq<(TreePath, Vec<u8>)>, i: int, j: int)
    requires
        0 <= i < read.len(),
        0 <= j < read.len(),
        read[i].1@ == read[j].1@,
    ensures
        signed_files(read)[i].0 == signed_files(read)[j].0,
        ({
            let signed = signed_files(read);
            let group = grouped(signed)[slot(grouped(signed), signed[i].0)];
            &&& 0 <= slot(grouped(signed), signed[i].0) < grouped(signed).len()
            &&& group.1 == members(signed, signed[i].0)
            &&& group.1.contains(read[i].0@)
            &&& group.1.contains(read[j].0@)
            &&& i != j ==> group.1.len() >= 2
        }),
{
    let signed = signed_files(read);
    lemma_grouped(signed);
    lemma_slot(grouped(signed), signed[i].0);
    lemma_members(signed, i);
    lemma_members(signed, j);
    if i < j {
        lemma_members_two(signed, i, j);
    } else if j < i {
        lemma_members_two(signed, j, i);
    }
}

/// The path of each file is among the members of its signature.
pub proof fn lemma_members(signed: Seq<(Seq<char>, PathView)>, i: int)
    requires
        0 <= i < signed.len(),
    ensures
        members(signed, signed[i].0).contains(signed[i].1),
    decreases signed.len(),
{
    let rest = signed.drop_last();
    if i == signed.len() - 1 {
        let found = members(signed, signed[i].0);
        assert(found[found.len() - 1] == signed[i].1);
    } else {
        lemma_members(rest, i);
        let inner = members(rest, signed[i].0);
        let w = choose|w: int| 0 <= w < inner.len() && inner[w] == signed[i].1;
        assert(members(signed, signed[i].0)[w] == signed[i].1);
    }
}

/// Two files with one signature make a group of two at least.
proof fn lemma_members_two(signed: Seq<(Seq<char>, PathView)>, i: int, j: int)
    requires
        0 <= i < j < signed.len(),
        signed[i].0 == signed[j].0,
    ensures
        members(signed, signed[i].0).len() >= 2,
    decreases signed.len(),
{
    let rest = signed.drop_last();
    if j == signed.len() - 1 {
        lemma_members(rest, i);
    } else {
        lemma_members_two(rest, i, j);
    }
}

/// A file whose signature no other file has makes a group of one, which the
/// report leaves out.
pub proof fn lemma_unique_signature(signed: Seq<(Seq<char>, PathView)>, i: int)
    requires
        0 <= i < signed.len(),
        forall|j: int| 0 <= j < signed.len() && j != i ==> (#[trigger] signed[j]).0 != signed[i].0,
    ensures
        members(signed, signed[i].0) == seq![signed[i].1],
    decreases signed.len(),
{
    let rest = signed.drop_last();
    if i == signed.len() - 1 {
        lemma_members_absent(rest, signed[i].0);
        assert(members(signed, signed[i].0) =~= seq![signed[i].1]);
    } else {
        assert(rest[i] == signed[i]);
        assert forall|j: int| 0 <= j < rest.len() && j != i implies (#[trigger] rest[j]).0
            != rest[i].0 by {
            assert(rest[j] == signed[j]);
        }
        lemma_unique_signature(rest, i);
        assert(signed[signed.len() - 1].0 != signed[i].0);
    }
}

/// A signature that no file has has no members.
proof fn lemma_members_absent(signed: Seq<(Seq<char>, PathView)>, signature: Seq<char>)
    requires
        forall|j: int| 0 <= j < signed.len() ==> (#[trigger] signed[j]).0 != signature,
    ensures
        members(signed, signature) == Seq::<PathView>::empty(),
    decreases signed.len(),
{
    if signed.len() > 0 {
        let rest = signed.drop_last();
        assert forall|j: int| 0 <= j < rest.len() implies (#[trigger] rest[j]).0 != signature by {
            assert(rest[j] == signed[j]);
        }
        lemma_members_absent(rest, signature);
        assert(signed[signed.len() - 1].0 != signature);
    }
}

} // verus!
