//! Paths as byte strings, with `/` between their components.

use vstd::prelude::*;

verus! {

/// The byte between the components of a path.
pub const SEPARATOR: u8 = 47;

/// The byte before the extension of a file name.
pub const DOT: u8 = 46;

/// The bytes of a text of ASCII characters.
pub open spec fn ascii(text: Seq<char>) -> Seq<u8> {
    Seq::new(text.len(), |i: int| text[i] as u8)
}

/// The extension of files that are still being written.
pub open spec fn tmp_extension() -> Seq<u8> {
    ascii("tmp"@)
}

/// The path of the file `name` in the directory `dir`.
pub open spec fn joined(dir: Seq<u8>, name: Seq<u8>) -> Seq<u8> {
    if dir.len() == 0 || dir.last() == SEPARATOR {
        dir + name
    } else {
        dir.push(SEPARATOR) + name
    }
}

/// The path under which the file at `path` is written before it is complete.
pub open spec fn tmp_path_of(path: Seq<u8>) -> Seq<u8> {
    path.push(DOT) + tmp_extension()
}

/// What stands behind the last `mark`: everything, where there is none.
pub open spec fn after_last(bytes: Seq<u8>, mark: u8) -> Seq<u8>
    decreases bytes.len(),
{
    if bytes.len() == 0 || bytes.last() == mark {
        Seq::empty()
    } else {
        after_last(bytes.drop_last(), mark).push(bytes.last())
    }
}

/// The last component of a path: empty components and `.` are passed over, and
/// a path whose last one is `..` names no file.
pub open spec fn file_name(path: Seq<u8>) -> Option<Seq<u8>>
    decreases path.len(),
{
    let name = after_last(path, SEPARATOR);
    if name == Seq::<u8>::empty() || name == seq![DOT] {
        let before = path.len() - name.len() - 1;
        if 0 <= before < path.len() {
            file_name(path.take(before))
        } else {
            None
        }
    } else if name == seq![DOT, DOT] {
        None
    } else {
        Some(name)
    }
}

/// What stands behind the last dot of a file name. A dot in front of the name
/// begins no extension.
pub open spec fn extension(name: Seq<u8>) -> Option<Seq<u8>> {
    let after = after_last(name, DOT);
    if after.len() + 1 < name.len() {
        Some(after)
    } else {
        None
    }
}

/// The extension of the file that the path names.
pub open spec fn extension_of(path: Seq<u8>) -> Option<Seq<u8>> {
    match file_name(path) {
        Some(name) => extension(name),
        None => None,
    }
}

/// Whether the path names a file that is still being written.
pub open spec fn names_tmp(path: Seq<u8>) -> bool {
    extension_of(path) == Some(tmp_extension())
}

/// What stands behind the last mark ends the bytes and holds no mark, and the
/// byte before it is one.
pub proof fn lemma_after_last(bytes: Seq<u8>, mark: u8)
    ensures
        after_last(bytes, mark).len() <= bytes.len(),
        after_last(bytes, mark) == bytes.skip(bytes.len() - after_last(bytes, mark).len()),
        !after_last(bytes, mark).contains(mark),
        after_last(bytes, mark).len() < bytes.len() ==> bytes[bytes.len() - after_last(
            bytes,
            mark,
        ).len() - 1] == mark,
    decreases bytes.len(),
{
    if bytes.len() > 0 && bytes.last() != mark {
        lemma_after_last(bytes.drop_last(), mark);
        let after = after_last(bytes, mark);
        let shorter = after_last(bytes.drop_last(), mark);
        assert(bytes.skip(bytes.len() - after.len()) =~= after);
        assert forall|i: int| 0 <= i < after.len() implies after[i] != mark by {
            if i < shorter.len() {
                assert(shorter.contains(shorter[i]));
            }
        }
    } else {
        assert(bytes.skip(bytes.len() as int) =~= Seq::<u8>::empty());
    }
}

/// Bytes without the mark, behind one or at the start, are what stands behind the last one.
pub proof fn lemma_after_last_is(bytes: Seq<u8>, mark: u8, start: int)
    requires
        0 <= start <= bytes.len(),
        start > 0 ==> bytes[start - 1] == mark,
        forall|i: int| start <= i < bytes.len() ==> bytes[i] != mark,
    ensures
        after_last(bytes, mark) == bytes.skip(start),
    decreases bytes.len(),
{
    if bytes.len() > start {
        lemma_after_last_is(bytes.drop_last(), mark, start);
        assert(bytes.skip(start) =~= bytes.drop_last().skip(start).push(bytes.last()));
    } else {
        assert(bytes.skip(start) =~= Seq::<u8>::empty());
    }
}

/// The index at which what stands behind the last `mark` begins.
fn start_after_last(bytes: &[u8], mark: u8) -> (start: usize)
    ensures
        start <= bytes@.len(),
        bytes@.skip(start as int) == after_last(bytes@, mark),
        start > 0 ==> bytes@[start - 1] == mark,
{
    let mut start: usize = bytes.len();
    while start > 0 && bytes[start - 1] != mark
        invariant
            start <= bytes@.len(),
            forall|i: int| start <= i < bytes@.len() ==> bytes@[i] != mark,
        decreases start,
    {
        start -= 1;
    }
    proof {
        lemma_after_last_is(bytes@, mark, start as int);
    }
    start
}

/// The last component of a path.
fn find_file_name<'a>(path: &'a [u8]) -> (name: Option<&'a [u8]>)
    ensures
        match (name, file_name(path@)) {
            (Some(name), Some(view)) => name@ == view,
            (None, None) => true,
            _ => false,
        },
    decreases path@.len(),
{
    let start: usize = start_after_last(path, SEPARATOR);
    let (_, name) = path.split_at(start);
    proof {
        lemma_after_last(path@, SEPARATOR);
        assert(name@ =~= path@.skip(start as int));
    }
    if name.len() == 0 || (name.len() == 1 && name[0] == DOT) {
        assert(name@ =~= Seq::<u8>::empty() || name@ =~= seq![DOT]);
        if start > 0 {
            let (parent, _) = path.split_at(start - 1);
            assert(parent@ =~= path@.take(path@.len() - name@.len() - 1));
            find_file_name(parent)
        } else {
            None
        }
    } else if name.len() == 2 && name[0] == DOT && name[1] == DOT {
        assert(name@ =~= seq![DOT, DOT]);
        None
    } else {
        Some(name)
    }
}

/// What stands behind the last dot of the path's file name.
pub fn find_extension<'a>(path: &'a [u8]) -> (found: Option<&'a [u8]>)
    ensures
        match (found, extension_of(path@)) {
            (Some(found), Some(view)) => found@ == view,
            (None, None) => true,
            _ => false,
        },
{
    let name = match find_file_name(path) {
        Some(name) => name,
        None => return None,
    };
    let start: usize = start_after_last(name, DOT);
    let (_, after) = name.split_at(start);
    proof {
        lemma_after_last(name@, DOT);
        assert(after@ =~= name@.skip(start as int));
    }
    if start > 1 {
        Some(after)
    } else {
        None
    }
}

/// The bytes of a text of ASCII characters.
pub fn ascii_bytes(text: &str) -> (bytes: Vec<u8>)
    requires
        vstd::utf8::is_ascii_chars(text@),
    ensures
        bytes@ == ascii(text@),
{
    proof {
        vstd::utf8::is_ascii_chars_encode_utf8(text@);
    }
    let bytes = vstd::slice::slice_to_vec(text.as_bytes());
    assert(bytes@ =~= ascii(text@));
    bytes
}

/// The path of the file `name` in the directory `dir`.
pub fn join(dir: &[u8], name: &[u8]) -> (path: Vec<u8>)
    ensures
        path@ == joined(dir@, name@),
{
    let mut path = vstd::slice::slice_to_vec(dir);
    if dir.len() > 0 && dir[dir.len() - 1] != SEPARATOR {
        path.push(SEPARATOR);
    }
    path.extend_from_slice(name);
    assert(path@ =~= joined(dir@, name@));
    path
}

/// A file in a directory has the name that it was given there.
pub proof fn law_file_name_of_joined(dir: Seq<u8>, name: Seq<u8>)
    requires
        !name.contains(SEPARATOR),
        name != Seq::<u8>::empty(),
        name != seq![DOT],
        name != seq![DOT, DOT],
    ensures
        file_name(joined(dir, name)) == Some(name),
{
    let path = joined(dir, name);
    let start = path.len() - name.len();
    assert(path.skip(start) =~= name);
    assert forall|i: int| start <= i < path.len() implies path[i] != SEPARATOR by {
        assert(name.contains(name[i - start]));
    }
    lemma_after_last_is(path, SEPARATOR, start);
}

/// The path of a file that is being written is recognised as such, unless the
/// complete file's own path ends in a separator or is empty.
pub proof fn law_tmp_path_names_tmp(path: Seq<u8>)
    ensures
        names_tmp(tmp_path_of(path)) <==> after_last(path, SEPARATOR).len() > 0,
{
    reveal_strlit("tmp");
    let name = after_last(path, SEPARATOR);
    let start = path.len() - name.len();
    let tmp = tmp_path_of(path);
    lemma_after_last(path, SEPARATOR);
    assert forall|i: int| start <= i < tmp.len() implies tmp[i] != SEPARATOR by {
        if i < path.len() {
            assert(name.contains(name[i - start]));
        }
    }
    lemma_after_last_is(tmp, SEPARATOR, start);
    let tmp_name = after_last(tmp, SEPARATOR);
    assert(tmp_name[name.len() as int] == DOT);
    lemma_after_last_is(tmp_name, DOT, name.len() as int + 1);
    assert(tmp_name.skip(name.len() as int + 1) =~= tmp_extension());
}

} // verus!
