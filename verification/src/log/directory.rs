//! The directory of a log: its files, their names, and the changes a log asks
//! for.

use vstd::prelude::*;

use crate::text;
use crate::text::{parse_unsigned, push_padded};

verus! {

/// A file of a log's directory.
#[derive(Debug)]
pub struct StoredFile {
    pub name: String,
    pub data: Vec<u8>,
}

/// A directory: the names of its files and their bytes.
pub type DirView = Seq<(Seq<char>, Seq<u8>)>;

/// The directory that a listing describes.
pub open spec fn dir_view(files: Seq<StoredFile>) -> DirView {
    Seq::new(files.len(), |i: int| (files[i].name@, files[i].data@))
}

/// The bytes of the first file with this name.
pub open spec fn file_in(dir: DirView, name: Seq<char>) -> Option<Seq<u8>>
    decreases dir.len(),
{
    if dir.len() == 0 {
        None
    } else if dir[0].0 == name {
        Some(dir[0].1)
    } else {
        file_in(dir.drop_first(), name)
    }
}

/// The bytes of the file with this name; none if there is no such file.
pub open spec fn contents_of(dir: DirView, name: Seq<char>) -> Seq<u8> {
    match file_in(dir, name) {
        Some(data) => data,
        None => Seq::empty(),
    }
}

/// How the name of a data file ends.
pub open spec fn data_suffix() -> Seq<char> {
    seq!['.', 'l', 'o', 'g']
}

/// How the name of an index file ends.
pub open spec fn index_suffix() -> Seq<char> {
    seq!['.', 'i', 'd', 'x']
}

/// Whether `name` ends in `suffix`.
pub open spec fn ends_in(name: Seq<char>, suffix: Seq<char>) -> bool {
    suffix.len() <= name.len() && name.skip(name.len() - suffix.len()) == suffix
}

/// `name` without the data suffix, however often it is repeated at the end.
pub open spec fn stem(name: Seq<char>) -> Seq<char>
    decreases name.len(),
{
    if ends_in(name, data_suffix()) {
        stem(name.take(name.len() - 4))
    } else {
        name
    }
}

/// The base offset that a file name gives: that of a name which ends in the data
/// suffix and is a number otherwise.
pub open spec fn segment_base(name: Seq<char>) -> Option<nat> {
    if ends_in(name, data_suffix()) {
        text::parsed(stem(name), u64::MAX as nat)
    } else {
        None
    }
}

/// The name of a segment's data file: the base offset in twenty digits.
pub open spec fn seg_name(base: u64) -> Seq<char> {
    text::padded(base as nat, 10, 20) + data_suffix()
}

/// The name of a segment's index file.
pub open spec fn idx_name(base: u64) -> Seq<char> {
    text::padded(base as nat, 10, 20) + index_suffix()
}

/// Whether some file of the directory is the data file of a segment at `base`.
pub open spec fn listed(dir: DirView, base: u64) -> bool {
    exists|i: int| 0 <= i < dir.len() && segment_base((#[trigger] dir[i]).0) == Some(base as nat)
}

/// A change to a file of the log's directory.
#[derive(Debug)]
pub enum FileOp {
    /// Make the file hold exactly these bytes.
    Write { name: String, data: Vec<u8> },
    /// Add these bytes at the end of the file, creating it if it is missing.
    Append { name: String, data: Vec<u8> },
}

/// A `FileOp` with its name and bytes as sequences.
pub enum FileOpView {
    Write { name: Seq<char>, data: Seq<u8> },
    Append { name: Seq<char>, data: Seq<u8> },
}

impl View for FileOp {
    type V = FileOpView;

    open spec fn view(&self) -> FileOpView {
        match self {
            FileOp::Write { name, data } => FileOpView::Write { name: name@, data: data@ },
            FileOp::Append { name, data } => FileOpView::Append { name: name@, data: data@ },
        }
    }
}

/// A list of changes by their views.
pub open spec fn ops_view(ops: Seq<FileOp>) -> Seq<FileOpView> {
    Seq::new(ops.len(), |i: int| ops[i]@)
}

/// The directory in which the first file named `name`, or else a new one, holds
/// `data`.
pub open spec fn with_file(dir: DirView, name: Seq<char>, data: Seq<u8>) -> DirView
    decreases dir.len(),
{
    if dir.len() == 0 {
        seq![(name, data)]
    } else if dir[0].0 == name {
        seq![(name, data)] + dir.drop_first()
    } else {
        seq![dir[0]] + with_file(dir.drop_first(), name, data)
    }
}

/// The directory after a change.
pub open spec fn applied(dir: DirView, op: FileOpView) -> DirView {
    match op {
        FileOpView::Write { name, data } => with_file(dir, name, data),
        FileOpView::Append { name, data } => with_file(dir, name, contents_of(dir, name) + data),
    }
}

/// The directory after a list of changes, made in order.
pub open spec fn applied_all(dir: DirView, ops: Seq<FileOpView>) -> DirView
    decreases ops.len(),
{
    if ops.len() == 0 {
        dir
    } else {
        applied(applied_all(dir, ops.drop_last()), ops.last())
    }
}

/// A changed file has its new bytes and every other file those it had.
pub proof fn lemma_with_file(dir: DirView, name: Seq<char>, data: Seq<u8>, other: Seq<char>)
    ensures
        file_in(with_file(dir, name, data), other) == if other == name {
            Some(data)
        } else {
            file_in(dir, other)
        },
    decreases dir.len(),
{
    let changed = with_file(dir, name, data);
    if dir.len() == 0 {
        assert(changed.drop_first() =~= dir);
    } else if dir[0].0 == name {
        assert(changed.drop_first() =~= dir.drop_first());
    } else {
        lemma_with_file(dir.drop_first(), name, data, other);
        assert(changed.drop_first() =~= with_file(dir.drop_first(), name, data));
    }
}

/// Which data files a changed directory lists: those it listed before and the
/// changed one.
pub proof fn lemma_with_file_listed(dir: DirView, name: Seq<char>, data: Seq<u8>, base: u64)
    ensures
        listed(with_file(dir, name, data), base) <==> (listed(dir, base) || segment_base(name)
            == Some(base as nat)),
    decreases dir.len(),
{
    let changed = with_file(dir, name, data);
    if dir.len() == 0 {
        assert(changed[0].0 == name);
    } else if dir[0].0 == name {
        assert(changed[0].0 == name);
        if listed(changed, base) {
            let i = choose|i: int|
                0 <= i < changed.len() && segment_base((#[trigger] changed[i]).0) == Some(
                    base as nat,
                );
            assert(dir[i].0 == changed[i].0);
        }
        if listed(dir, base) {
            let i = choose|i: int|
                0 <= i < dir.len() && segment_base((#[trigger] dir[i]).0) == Some(base as nat);
            assert(dir[i].0 == changed[i].0);
        }
    } else {
        let rest = dir.drop_first();
        let changed_rest = with_file(rest, name, data);
        lemma_with_file_listed(rest, name, data, base);
        assert(changed =~= seq![dir[0]] + changed_rest);
        if listed(changed, base) {
            let i = choose|i: int|
                0 <= i < changed.len() && segment_base((#[trigger] changed[i]).0) == Some(
                    base as nat,
                );
            if i > 0 {
                assert(changed_rest[i - 1] == changed[i]);
                assert(listed(changed_rest, base));
                if listed(rest, base) {
                    let k = choose|k: int|
                        0 <= k < rest.len() && segment_base((#[trigger] rest[k]).0) == Some(
                            base as nat,
                        );
                    assert(dir[k + 1] == rest[k]);
                }
            } else {
                assert(dir[0].0 == changed[0].0);
            }
        }
        if listed(dir, base) {
            let i = choose|i: int|
                0 <= i < dir.len() && segment_base((#[trigger] dir[i]).0) == Some(base as nat);
            if i > 0 {
                assert(rest[i - 1] == dir[i]);
                assert(listed(rest, base));
            } else {
                assert(changed[0] == dir[0]);
            }
        }
        if listed(changed_rest, base) {
            let k = choose|k: int|
                0 <= k < changed_rest.len() && segment_base((#[trigger] changed_rest[k]).0)
                    == Some(base as nat);
            assert(changed[k + 1] == changed_rest[k]);
        }
    }
}

/// A file that can be found is among those listed under its name.
pub proof fn lemma_found_is_listed(dir: DirView, name: Seq<char>, base: u64)
    requires
        file_in(dir, name) is Some,
        segment_base(name) == Some(base as nat),
    ensures
        listed(dir, base),
    decreases dir.len(),
{
    if dir[0].0 != name {
        let rest = dir.drop_first();
        lemma_found_is_listed(rest, name, base);
        let k = choose|k: int|
            0 <= k < rest.len() && segment_base((#[trigger] rest[k]).0) == Some(base as nat);
        assert(dir[k + 1] == rest[k]);
    }
}

/// The name of a data file gives back the base offset it was made from.
pub proof fn law_segment_name_gives_base(base: u64)
    ensures
        segment_base(seg_name(base)) == Some(base as nat),
{
    let digits = text::padded(base as nat, 10, 20);
    let name = seg_name(base);
    text::lemma_padded_decimal(base as nat, 20);
    text::lemma_ten_to_the_twenty();
    assert(name.skip(name.len() - 4) =~= data_suffix());
    assert(name.take(name.len() - 4) =~= digits);
    assert(!ends_in(digits, data_suffix())) by {
        if ends_in(digits, data_suffix()) {
            assert(digits.skip(digits.len() - 4)[0] == '.');
            assert(text::is_decimal_digit(digits[16]));
        }
    }
    assert(stem(digits) == digits);
    assert(text::without_plus(digits) == digits) by {
        assert(text::is_decimal_digit(digits[0]));
    }
}

/// No index file is taken for a data file, and the index files of two segments
/// have different names.
pub proof fn lemma_index_names(a: u64, b: u64)
    ensures
        segment_base(idx_name(a)) is None,
        idx_name(a) != seg_name(b),
        idx_name(a) == idx_name(b) ==> a == b,
{
    text::lemma_padded_decimal(a as nat, 20);
    text::lemma_padded_decimal(b as nat, 20);
    text::lemma_ten_to_the_twenty();
    let name = idx_name(a);
    assert(name[21] == 'i');
    assert(name.skip(20)[1] == 'i');
    assert(seg_name(b)[21] == 'l');
    if idx_name(a) == idx_name(b) {
        assert(idx_name(a).take(20) =~= text::padded(a as nat, 10, 20));
        assert(idx_name(b).take(20) =~= text::padded(b as nat, 10, 20));
    }
}

/// The name of the data file of the segment at `base`, in the log's directory.
pub fn seg_path(base: u64) -> (name: String)
    ensures
        name@ == seg_name(base),
{
    let mut name = String::new();
    push_padded(&mut name, base, 10, 20);
    proof {
        reveal_strlit(".log");
    }
    name.append(".log");
    assert(name@ =~= seg_name(base));
    name
}

/// The name of the index file of the segment at `base`, in the log's directory.
pub fn idx_path(base: u64) -> (name: String)
    ensures
        name@ == idx_name(base),
{
    let mut name = String::new();
    push_padded(&mut name, base, 10, 20);
    proof {
        reveal_strlit(".idx");
    }
    name.append(".idx");
    assert(name@ =~= idx_name(base));
    name
}

/// Whether the first `len` characters of `name` end in a dot and these three.
fn ends_with(name: &str, len: usize, a: char, b: char, c: char) -> (r: bool)
    requires
        len <= name@.len(),
    ensures
        r == ends_in(name@.take(len as int), seq!['.', a, b, c]),
{
    let ghost front = name@.take(len as int);
    if len < 4 {
        return false;
    }
    assert(front.skip(len - 4) =~= seq![
        name@[len - 4],
        name@[len - 3],
        name@[len - 2],
        name@[len - 1],
    ]);
    let r: bool = name.get_char(len - 4) == '.' && name.get_char(len - 3) == a && name.get_char(
        len - 2,
    ) == b && name.get_char(len - 1) == c;
    assert(!r ==> front.skip(len - 4) != seq!['.', a, b, c]) by {
        let end = front.skip(len - 4);
        assert(end == seq!['.', a, b, c] ==> end[0] == '.' && end[1] == a && end[2] == b && end[3]
            == c);
    }
    r
}

/// Whether this is the name of an index file.
pub fn is_index_name(name: &str) -> (r: bool)
    ensures
        r == ends_in(name@, index_suffix()),
{
    let n: usize = name.unicode_len();
    assert(name@.take(n as int) =~= name@);
    ends_with(name, n, 'i', 'd', 'x')
}

/// The base offset that a file name gives, if it is that of a data file.
pub fn segment_offset(name: &str) -> (r: Option<u64>)
    ensures
        match r {
            Some(base) => segment_base(name@) == Some(base as nat),
            None => segment_base(name@) is None,
        },
{
    let n: usize = name.unicode_len();
    assert(name@.take(n as int) =~= name@);
    if !ends_with(name, n, 'l', 'o', 'g') {
        return None;
    }
    let mut end: usize = n;
    while ends_with(name, end, 'l', 'o', 'g')
        invariant
            end <= n == name@.len(),
            stem(name@) == stem(name@.take(end as int)),
        decreases end,
    {
        assert(name@.take(end as int).take(end - 4) =~= name@.take(end - 4));
        end = end - 4;
    }
    parse_unsigned(name.substring_char(0, end), u64::MAX)
}

/// The place of the first file with this name.
pub fn find_file(files: &Vec<StoredFile>, name: &String) -> (r: Option<usize>)
    ensures
        match r {
            Some(i) => i < files@.len() && file_in(dir_view(files@), name@) == Some(
                files@[i as int].data@,
            ),
            None => file_in(dir_view(files@), name@) is None,
        },
{
    let mut i: usize = 0;
    let ghost dir = dir_view(files@);
    assert(dir.skip(0) =~= dir);
    while i < files.len()
        invariant
            i <= files@.len(),
            dir == dir_view(files@),
            file_in(dir, name@) == file_in(dir.skip(i as int), name@),
        decreases files@.len() - i,
    {
        assert(dir.skip(i as int)[0] == dir[i as int]);
        assert(dir.skip(i as int).drop_first() =~= dir.skip(i + 1));
        if files[i].name == *name {
            return Some(i);
        }
        i = i + 1;
    }
    None
}

/// The bytes of the file with this name; none if there is no such file.
pub fn file_contents(files: &Vec<StoredFile>, name: &String) -> (data: Vec<u8>)
    ensures
        data@ == contents_of(dir_view(files@), name@),
{
    match find_file(files, name) {
        Some(i) => vstd::slice::slice_to_vec(files[i].data.as_slice()),
        None => Vec::new(),
    }
}

} // verus!
