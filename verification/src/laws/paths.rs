//! Where the files of a store lie, and which of them are swept, stated over the
//! bytes of their paths.

use vstd::prelude::*;

use crate::db::DbView;
use crate::paths::{
    after_last, ascii, extension, extension_of, file_name, joined, lemma_after_last,
    lemma_after_last_is, names_tmp, tmp_extension, tmp_path_of, DOT, SEPARATOR,
};
use crate::wal::wal_file_name;

verus! {

/// Whether a file in this directory stands behind a separator of its own.
pub open spec fn wants_separator(dir: Seq<u8>) -> bool {
    dir.len() > 0 && dir[dir.len() - 1] != 47
}

/// The path of a file in a directory begins with all bytes of the directory's
/// path. What follows is the name, behind one separator where the directory's
/// path is not empty and does not end in one.
pub proof fn law_file_lies_in_its_directory(dir: Seq<u8>, name: Seq<u8>)
    ensures
        joined(dir, name).take(dir.len() as int) == dir,
        wants_separator(dir) ==> joined(dir, name).skip(dir.len() as int) == seq![47u8] + name,
        !wants_separator(dir) ==> joined(dir, name).skip(dir.len() as int) == name,
{
    assert(joined(dir, name).take(dir.len() as int) =~= dir);
    if wants_separator(dir) {
        assert(joined(dir, name).skip(dir.len() as int) =~= seq![47u8] + name);
    } else {
        assert(joined(dir, name).skip(dir.len() as int) =~= name);
    }
}

/// Files of one name in different directories have different paths, where the
/// directories' paths do not end in a separator.
pub proof fn law_directories_share_no_file(first: Seq<u8>, second: Seq<u8>, name: Seq<u8>)
    requires
        wants_separator(first),
        wants_separator(second),
        first != second,
    ensures
        joined(first, name) != joined(second, name),
{
    law_file_lies_in_its_directory(first, name);
    law_file_lies_in_its_directory(second, name);
    if joined(first, name) == joined(second, name) {
        assert(joined(first, name).len() == first.len() + 1 + name.len());
        assert(joined(second, name).len() == second.len() + 1 + name.len());
    }
}

/// Files of different names in one directory have different paths.
pub proof fn law_names_share_no_file(dir: Seq<u8>, first: Seq<u8>, second: Seq<u8>)
    requires
        first != second,
    ensures
        joined(dir, first) != joined(dir, second),
{
    law_file_lies_in_its_directory(dir, first);
    law_file_lies_in_its_directory(dir, second);
    if seq![47u8] + first == seq![47u8] + second {
        assert(first =~= (seq![47u8] + first).skip(1));
        assert(second =~= (seq![47u8] + second).skip(1));
    }
}

/// `path` with a separator behind it, where one is wanted.
pub open spec fn as_directory(path: Seq<u8>) -> Seq<u8> {
    if wants_separator(path) {
        path.push(47)
    } else {
        path
    }
}

/// The log and the table of a store lie in the directory of the store: the paths
/// are all bytes of the directory's path, then a separator where one is wanted,
/// then `wal` and `sstable.sst`. The table is written under its path with `.tmp`
/// behind it.
pub proof fn law_files_lie_in_the_directory_of_the_store(db: DbView)
    ensures
        db.wal_path() == as_directory(db.path) + seq![119u8, 97, 108],
        joined(db.path, wal_file_name()) == db.wal_path(),
        db.table_path() == as_directory(db.path) + seq![
            115u8,
            115,
            116,
            97,
            98,
            108,
            101,
            46,
            115,
            115,
            116,
        ],
        tmp_path_of(db.table_path()) == db.table_path() + seq![46u8, 116, 109, 112],
        db.wal_path() != db.table_path(),
{
    reveal_strlit("wal");
    reveal_strlit("sstable.sst");
    law_tmp_path_has_tmp_behind_it(db.table_path());
    let log = seq![119u8, 97, 108];
    let table = seq![115u8, 115, 116, 97, 98, 108, 101, 46, 115, 115, 116];
    assert(wal_file_name() =~= log);
    assert(crate::db::table_file_name() =~= table);
    assert(db.wal_path() =~= as_directory(db.path) + log);
    assert(db.table_path() =~= as_directory(db.path) + table);
    assert(db.wal_path().len() != db.table_path().len());
}

/// Stores in different directories share neither log nor table, where the
/// directories' paths do not end in a separator.
pub proof fn law_stores_share_no_file(first: DbView, second: DbView)
    requires
        wants_separator(first.path),
        wants_separator(second.path),
        first.path != second.path,
    ensures
        first.wal_path() != second.wal_path(),
        first.table_path() != second.table_path(),
        tmp_path_of(first.table_path()) != tmp_path_of(second.table_path()),
{
    law_files_lie_in_the_directory_of_the_store(first);
    law_files_lie_in_the_directory_of_the_store(second);
    let n = first.path.len() as int;
    if first.path.len() == second.path.len() {
        assert(first.path =~= first.wal_path().take(n));
        assert(second.path =~= second.wal_path().take(n));
        assert(first.path =~= first.table_path().take(n));
        assert(second.path =~= second.table_path().take(n));
        assert(first.path =~= tmp_path_of(first.table_path()).take(n));
        assert(second.path =~= tmp_path_of(second.table_path()).take(n));
    } else {
        assert(first.wal_path().len() != second.wal_path().len());
        assert(first.table_path().len() != second.table_path().len());
        assert(tmp_path_of(first.table_path()).len() != tmp_path_of(second.table_path()).len());
    }
}

/// A file is written under its path with `.tmp` behind it.
pub proof fn law_tmp_path_has_tmp_behind_it(path: Seq<u8>)
    ensures
        tmp_path_of(path) == path + seq![46u8, 116, 109, 112],
{
    reveal_strlit("tmp");
    assert(tmp_path_of(path) =~= path + seq![46u8, 116, 109, 112]);
}

/// Whether the path has a last component other than `.`: it ends neither in a
/// separator nor in one with a dot behind it.
pub open spec fn ends_in_a_name(path: Seq<u8>) -> bool {
    let n = path.len() as int;
    &&& n > 0
    &&& path[n - 1] != 47
    &&& !(path[n - 1] == 46 && (n == 1 || path[n - 2] == 47))
}

/// A path that ends in a name is swept exactly if it ends in `.tmp`, with another
/// byte of the name in front of it.
pub proof fn law_swept_exactly_if_the_path_ends_in_tmp(path: Seq<u8>)
    requires
        ends_in_a_name(path),
    ensures
        names_tmp(path) <==> {
            let n = path.len() as int;
            &&& n >= 5
            &&& path[n - 5] != 47
            &&& path[n - 4] == 46
            &&& path[n - 3] == 116
            &&& path[n - 2] == 109
            &&& path[n - 1] == 112
        },
{
    reveal_strlit("tmp");
    let n = path.len() as int;
    let tmp = seq![116u8, 109, 112];
    assert(tmp_extension() =~= tmp);
    let name = after_last(path, SEPARATOR);
    lemma_after_last(path, SEPARATOR);
    let start = n - name.len();
    assert(name.len() > 0) by {
        if name.len() == 0 {
            assert(path[n - 1] == SEPARATOR);
        }
    }
    assert(forall|i: int| 0 <= i < name.len() ==> name[i] == path[start + i]);
    assert forall|i: int| start <= i < n implies path[i] != 47 by {
        assert(name.contains(name[i - start]));
    }
    assert(name != seq![DOT]) by {
        if name == seq![DOT] {
            assert(name[0] == path[n - 1]);
        }
    }
    let after = after_last(name, DOT);
    lemma_after_last(name, DOT);
    if n >= 5 && path[n - 5] != 47 && path[n - 4] == 46 && path[n - 3] == 116 && path[n - 2] == 109
        && path[n - 1] == 112 {
        assert(start <= n - 5) by {
            if start > n - 5 {
                assert(path[start - 1] == 47);
            }
        }
        lemma_after_last_is(name, DOT, name.len() - 3);
        assert(name.skip(name.len() - 3) =~= tmp);
        assert(name != seq![DOT, DOT]);
        assert(names_tmp(path));
    } else if names_tmp(path) {
        assert(name != seq![DOT, DOT]);
        assert(file_name(path) == Some(name));
        assert(extension(name) == Some(after));
        assert(after =~= tmp);
        assert(after[0] == name[name.len() - 3]);
        assert(after[1] == name[name.len() - 2]);
        assert(after[2] == name[name.len() - 1]);
        assert(name[name.len() - 4] == DOT);
        assert(path[n - 5] == name[name.len() - 5]);
        assert(false);
    }
}

/// Separators and components `.` at the end of a path do not matter to the sweep.
/// A path without any other component is not swept.
pub proof fn law_sweep_passes_over_empty_components(path: Seq<u8>)
    ensures
        names_tmp(path.push(47)) == names_tmp(path),
        names_tmp(path.push(47).push(46)) == names_tmp(path),
        !names_tmp(Seq::<u8>::empty()),
        !names_tmp(seq![46u8]),
{
    reveal_with_fuel(file_name, 2);
    reveal_with_fuel(after_last, 3);
    let slash = path.push(47);
    let dot = slash.push(46);
    assert(after_last(slash, SEPARATOR) == Seq::<u8>::empty());
    assert(slash.take(path.len() as int) =~= path);
    assert(dot.drop_last() =~= slash);
    assert(after_last(dot, SEPARATOR) =~= seq![DOT]);
    assert(dot.take(path.len() as int) =~= path);
    assert(file_name(slash) == file_name(path));
    assert(file_name(dot) == file_name(path));
    let only_dot = seq![46u8];
    assert(only_dot.drop_last() =~= Seq::<u8>::empty());
    assert(after_last(only_dot, SEPARATOR) =~= seq![DOT]);
}

/// Of all files with an extension exactly those with the extension `tmp` are
/// swept: whatever the directory and the stem, the file `stem.extension` is swept
/// if and only if the extension is the bytes `t`, `m` and `p`.
pub proof fn law_swept_exactly_if_the_extension_is_tmp(
    dir: Seq<u8>,
    stem: Seq<u8>,
    found: Seq<u8>,
)
    requires
        stem.len() > 0,
        !stem.contains(47),
        !found.contains(47),
        !found.contains(46),
    ensures
        names_tmp(as_directory(dir) + stem + seq![46u8] + found) <==> found == seq![
            116u8,
            109,
            112,
        ],
{
    let path = as_directory(dir) + stem + seq![46u8] + found;
    let n = path.len() as int;
    let m = found.len() as int;
    let tmp = seq![116u8, 109, 112];
    assert(path[n - m - 1] == 46);
    assert(path[n - m - 2] == stem[stem.len() - 1]);
    assert(stem.contains(stem[stem.len() - 1]));
    assert forall|i: int| 0 <= i < m implies path[n - m + i] == found[i] && found[i] != 46
        && found[i] != 47 by {
        assert(found.contains(found[i]));
    }
    assert(ends_in_a_name(path)) by {
        if m > 0 {
            assert(path[n - 1] == found[m - 1]);
        }
    }
    law_swept_exactly_if_the_path_ends_in_tmp(path);
    if names_tmp(path) {
        if m > 3 {
            assert(path[n - 4] == found[m - 4]);
        } else if m < 3 {
            assert(path[n - m - 1] == 46);
        }
        assert(found[0] == path[n - 3]);
        assert(found[1] == path[n - 2]);
        assert(found[2] == path[n - 1]);
        assert(found =~= tmp);
    }
    if found == tmp {
        assert(path[n - 3] == found[0] && path[n - 2] == found[1] && path[n - 1] == found[2]);
    }
}

/// A text of ASCII characters is the bytes of its characters' codes.
pub proof fn law_text_is_the_codes_of_its_characters(text: Seq<char>)
    ensures
        ascii(text).len() == text.len(),
        forall|i: int| 0 <= i < text.len() ==> #[trigger] ascii(text)[i] == text[i] as u8,
{
}

/// The extension of a file is what stands behind the last dot of its name, whatever
/// the directory and the stem.
pub proof fn law_extension_stands_behind_the_last_dot(
    dir: Seq<u8>,
    stem: Seq<u8>,
    found: Seq<u8>,
)
    requires
        stem.len() > 0,
        !stem.contains(47),
        !found.contains(47),
        !found.contains(46),
        stem != seq![46u8] || found.len() > 0,
    ensures
        extension_of(as_directory(dir) + stem + seq![46u8] + found) == Some(found),
{
    let name = stem + seq![46u8] + found;
    let path = as_directory(dir) + stem + seq![46u8] + found;
    let start = as_directory(dir).len() as int;
    assert forall|i: int| 0 <= i < name.len() implies name[i] != 47 by {
        if i < stem.len() {
            assert(stem.contains(stem[i]));
        } else if i > stem.len() {
            assert(found.contains(found[i - stem.len() - 1]));
        }
    }
    assert(path.skip(start) =~= name);
    assert forall|i: int| start <= i < path.len() implies path[i] != SEPARATOR by {
        assert(path[i] == name[i - start]);
    }
    lemma_after_last_is(path, SEPARATOR, start);
    assert forall|i: int| stem.len() + 1 <= i < name.len() implies name[i] != DOT by {
        assert(found.contains(found[i - stem.len() - 1]));
    }
    lemma_after_last_is(name, DOT, stem.len() as int + 1);
    assert(name.skip(stem.len() as int + 1) =~= found);
    assert(name.len() >= 2);
    if name == seq![DOT, DOT] {
        assert(stem.len() == 1 && stem[0] == name[0]);
        assert(stem =~= seq![46u8]);
    }
}

/// A file whose name has no dot, or none but one in front, has no extension.
pub proof fn law_name_without_a_dot_has_no_extension(dir: Seq<u8>, name: Seq<u8>)
    requires
        name.len() > 0,
        !name.contains(47),
        !name.contains(46),
    ensures
        extension_of(as_directory(dir) + name) is None,
        extension_of(as_directory(dir) + (seq![46u8] + name)) is None,
{
    let start = as_directory(dir).len() as int;
    let plain = as_directory(dir) + name;
    let hidden_name = seq![46u8] + name;
    let hidden = as_directory(dir) + hidden_name;
    assert forall|i: int| 0 <= i < name.len() implies name[i] != 46 && name[i] != 47 by {
        assert(name.contains(name[i]));
    }
    assert(plain.skip(start) =~= name);
    lemma_after_last_is(plain, SEPARATOR, start);
    lemma_after_last_is(name, DOT, 0);
    assert(name.skip(0) =~= name);
    assert(name[0] != DOT);
    assert(hidden.skip(start) =~= hidden_name);
    lemma_after_last_is(hidden, SEPARATOR, start);
    lemma_after_last_is(hidden_name, DOT, 1);
    assert(hidden_name[1] == name[0]);
}

} // verus!
