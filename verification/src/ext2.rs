//! An object store on an ext2 file system.

use vstd::prelude::*;

use crate::error::ErrorKind;
use crate::ext4::dirs::FileKind;
use crate::ext4::store;
use crate::num;
use crate::paged_object_store::request::PageRequest;
use crate::paged_object_store::ObjID;
use crate::text;
use crate::PAGE_SIZE;

verus! {

/// What can go wrong in the file system.
#[derive(Clone, Copy, Debug, PartialEq, Eq, Structural)]
pub enum Ext2Failure {
    /// The device took nothing.
    DeviceWriteZero,
    /// The device failed otherwise.
    DeviceOther,
    /// The entry is there already.
    EntryAlreadyExist,
    /// The file system's own kind of error.
    Implementation,
    /// Too many symbolic links.
    Loop,
    /// A name is too long.
    NameTooLong,
    /// A directory was expected.
    NotDir,
    /// There is no such entry.
    NoEnt,
    /// There is no such file.
    NotFound,
    /// The file cannot be removed.
    RemoveRefused,
    /// The file is of another kind than expected.
    WrongFileType,
    /// A path has to be absolute.
    AbsolutePathRequired,
    /// A name holds a NUL.
    InvalidCString,
    /// A name is none.
    InvalidFilename,
    /// Input or output failed.
    Io,
}

/// The kind of a failure.
pub open spec fn kind_of(failure: Ext2Failure) -> ErrorKind {
    match failure {
        Ext2Failure::DeviceWriteZero => ErrorKind::WriteZero,
        Ext2Failure::DeviceOther => ErrorKind::UnexpectedEof,
        Ext2Failure::EntryAlreadyExist => ErrorKind::AlreadyExists,
        Ext2Failure::NameTooLong => ErrorKind::InvalidInput,
        Ext2Failure::InvalidCString => ErrorKind::InvalidInput,
        Ext2Failure::NotDir => ErrorKind::NotADirectory,
        Ext2Failure::NoEnt => ErrorKind::NotFound,
        Ext2Failure::NotFound => ErrorKind::NotFound,
        Ext2Failure::RemoveRefused => ErrorKind::ResourceBusy,
        _ => ErrorKind::Other,
    }
}

/// The kind of a failure.
pub fn e2error_to_std(failure: Ext2Failure) -> (kind: ErrorKind)
    ensures
        kind == kind_of(failure),
{
    match failure {
        Ext2Failure::DeviceWriteZero => ErrorKind::WriteZero,
        Ext2Failure::DeviceOther => ErrorKind::UnexpectedEof,
        Ext2Failure::EntryAlreadyExist => ErrorKind::AlreadyExists,
        Ext2Failure::Implementation => ErrorKind::Other,
        Ext2Failure::Loop => ErrorKind::Other,
        Ext2Failure::NameTooLong => ErrorKind::InvalidInput,
        Ext2Failure::NotDir => ErrorKind::NotADirectory,
        Ext2Failure::NoEnt => ErrorKind::NotFound,
        Ext2Failure::NotFound => ErrorKind::NotFound,
        Ext2Failure::RemoveRefused => ErrorKind::ResourceBusy,
        Ext2Failure::WrongFileType => ErrorKind::Other,
        Ext2Failure::AbsolutePathRequired => ErrorKind::Other,
        Ext2Failure::InvalidCString => ErrorKind::InvalidInput,
        Ext2Failure::InvalidFilename => ErrorKind::Other,
        Ext2Failure::Io => ErrorKind::Other,
    }
}

/// A result with its failure by kind.
pub fn e2result_to_std<T>(result: Result<T, Ext2Failure>) -> (res: Result<T, ErrorKind>)
    ensures
        res == (match result {
            Ok(value) => Ok::<T, ErrorKind>(value),
            Err(failure) => Err(kind_of(failure)),
        }),
{
    match result {
        Ok(value) => Ok(value),
        Err(failure) => Err(e2error_to_std(failure)),
    }
}

/// Whether a file is of the kind that is wanted: anything else is an error.
pub fn require_kind(found: FileKind, wanted: FileKind) -> (res: Result<(), ErrorKind>)
    ensures
        res == (if found == wanted {
            Ok::<(), ErrorKind>(())
        } else {
            Err(ErrorKind::Other)
        }),
{
    if found == wanted {
        Ok(())
    } else {
        Err(ErrorKind::Other)
    }
}

/// The directory that an object is kept in, within the directory of all objects.
pub open spec fn id_subdir(id: ObjID) -> Seq<char> {
    text::hex(store::top_byte(id))
}

/// The file that an object is kept in.
pub open spec fn id_path(id: ObjID) -> Seq<char> {
    "/"@ + store::id_file(id)
}

/// The directory and the file that an object is kept in.
pub fn get_id_path(id: ObjID) -> (path: (String, String))
    ensures
        path.0@ == id_subdir(id),
        path.1@ == id_path(id),
{
    let top: u128 = id / 0x0100_0000_0000_0000_0000_0000_0000_0000;
    let mut dir = String::new();
    text::append_hex(&mut dir, top);
    assert(dir@ =~= id_subdir(id));
    let mut file = String::new();
    file.append("/ids/");
    text::append_hex(&mut file, top);
    file.append("/");
    text::append_hex(&mut file, id);
    proof {
        reveal_strlit("/ids/");
        reveal_strlit("ids/");
        reveal_strlit("/");
        assert("/ids/"@ =~= "/"@ + "ids/"@);
        assert(file@ =~= id_path(id));
    }
    (dir, file)
}

/// How many zeros have to follow the end of a file of `file_len` bytes before `len` bytes are
/// written at `offset`: as many as make it hold them.
pub fn missing_bytes(offset: u64, len: usize, file_len: u64) -> (missing: u64)
    requires
        offset + len <= u64::MAX,
    ensures
        missing == (if offset + len >= file_len {
            offset + len - file_len
        } else {
            0
        }),
        file_len + missing >= offset + len,
{
    let end: u64 = offset + len as u64;
    if end >= file_len {
        end - file_len
    } else {
        0
    }
}

/// How many of the missing zeros are written next: up to a page of them.
pub fn next_fill(missing: u64) -> (n: usize)
    ensures
        n == (if missing < PAGE_SIZE {
            missing as int
        } else {
            PAGE_SIZE as int
        }),
        n <= missing,
        missing > 0 ==> n > 0,
{
    if missing < PAGE_SIZE as u64 {
        missing as usize
    } else {
        PAGE_SIZE
    }
}

/// Whether a write goes to whole pages, block by block, rather than through the file.
pub fn writes_whole_pages(offset: u64, len: usize) -> (yes: bool)
    ensures
        yes == (offset % 4096 == 0 && len % 4096 == 0),
{
    offset % PAGE_SIZE as u64 == 0 && len % PAGE_SIZE == 0
}

/// The block of the file that page `page` of a write at `offset` goes to, in 32 bits, and where in
/// the written bytes the page starts.
pub fn page_target(offset: u64, page: usize, block_size: u32) -> (target: (u32, usize))
    requires
        block_size > 0,
        offset + page * PAGE_SIZE <= u64::MAX,
        page * PAGE_SIZE <= usize::MAX,
    ensures
        target.0 == ((offset + page * PAGE_SIZE) / (block_size as int)) % num::two32(),
        target.1 == page * PAGE_SIZE,
{
    let start: usize = page * PAGE_SIZE;
    let at: u64 = offset + start as u64;
    (num::low_u32(at / block_size as u64), start)
}

/// How many blocks of the file make a page.
pub fn blocks_per_page(block_size: u32) -> (n: u32)
    requires
        block_size > 0,
    ensures
        n == 4096u32 / block_size,
{
    4096u32 / block_size
}

/// The low 32 bits of a page number.
pub open spec fn low_page(page: int) -> int {
    page % num::two32()
}

/// The first block of the file behind each page of a request.
pub fn page_blocks(start_page: i64, nr_pages: u32, per_page: u32) -> (blocks: Vec<u32>)
    requires
        start_page + nr_pages <= i64::MAX,
        forall|i: int|
            0 <= i < nr_pages ==> #[trigger] low_page(start_page + i) * per_page <= u32::MAX,
    ensures
        blocks@.len() == nr_pages,
        forall|i: int|
            0 <= i < nr_pages ==> #[trigger] blocks@[i] == low_page(start_page + i) * per_page,
{
    let mut blocks: Vec<u32> = Vec::new();
    let mut i: u32 = 0;
    while i < nr_pages
        invariant
            i <= nr_pages,
            start_page + nr_pages <= i64::MAX,
            forall|j: int|
                0 <= j < nr_pages ==> #[trigger] low_page(start_page + j) * per_page <= u32::MAX,
            blocks@.len() == i,
            forall|j: int|
                0 <= j < i ==> #[trigger] blocks@[j] == low_page(start_page + j) * per_page,
        decreases nr_pages - i,
    {
        assert(low_page(start_page + i) * per_page <= u32::MAX);
        let page: i64 = start_page + i as i64;
        let low: u32 = num::low_u32_of_signed(page);
        blocks.push(low * per_page);
        i = i + 1;
    }
    blocks
}

/// Where paging out makes an object's file longer, if it does: a page of zeros is written behind
/// the last page that is paged out, where the file does not reach farther than that.
pub fn page_out_growth(requests: &[PageRequest], file_len: u64) -> (growth: Option<u64>)
    requires
        forall|i: int|
            0 <= i < requests@.len() ==> store::request_end(#[trigger] requests@[i]) <= u64::MAX,
        store::highest_end(requests@) * PAGE_SIZE <= u64::MAX,
    ensures
        growth == (if store::highest_end(requests@) * PAGE_SIZE >= file_len {
            Some((store::highest_end(requests@) * PAGE_SIZE) as u64)
        } else {
            None
        }),
{
    let end: u64 = store::highest_request_end(requests) * PAGE_SIZE as u64;
    if end >= file_len {
        Some(end)
    } else {
        None
    }
}

/// What a failure is reported as says what it was: absence for what is not there, existence for
/// what is, a bad name for a name that is too long or holds a NUL, and so on. What has no kind of
/// its own is reported as something else.
pub proof fn lemma_failures_have_kinds(failure: Ext2Failure)
    ensures
        kind_of(failure) == ErrorKind::NotFound <==> failure is NoEnt || failure is NotFound,
        kind_of(failure) == ErrorKind::AlreadyExists <==> failure is EntryAlreadyExist,
        kind_of(failure) == ErrorKind::InvalidInput <==> failure is NameTooLong || failure
            is InvalidCString,
        kind_of(failure) == ErrorKind::NotADirectory <==> failure is NotDir,
        kind_of(failure) == ErrorKind::ResourceBusy <==> failure is RemoveRefused,
        kind_of(failure) == ErrorKind::WriteZero <==> failure is DeviceWriteZero,
        kind_of(failure) == ErrorKind::UnexpectedEof <==> failure is DeviceOther,
        kind_of(failure) == ErrorKind::Other <==> failure is Implementation || failure is Loop
            || failure is WrongFileType || failure is AbsolutePathRequired || failure
            is InvalidFilename || failure is Io,
{
}

/// An object's file is named by an absolute path, and its directory is the one that the path names
/// behind `/ids/`, whose name reads as the most significant byte of the id.
pub proof fn lemma_id_paths_agree(id: ObjID)
    ensures
        id_path(id).take(5) == seq!['/', 'i', 'd', 's', '/'],
        id_path(id).len() > 5 + id_subdir(id).len() + 1,
        id_path(id).subrange(5, 5int + id_subdir(id).len()) == id_subdir(id),
        id_path(id)[5int + id_subdir(id).len()] == '/',
        text::hex_value(id_subdir(id)) * 0x0100_0000_0000_0000_0000_0000_0000_0000 <= id,
        id < (text::hex_value(id_subdir(id)) + 1) * 0x0100_0000_0000_0000_0000_0000_0000_0000,
        text::all_hex(id_path(id).skip(6int + id_subdir(id).len())),
        text::hex_value(id_path(id).skip(6int + id_subdir(id).len())) == id,
{
    reveal_strlit("/");
    reveal_strlit("ids/");
    text::lemma_hex_value(store::top_byte(id));
    text::lemma_hex_value(id as nat);
    let top = text::hex(store::top_byte(id));
    assert(id_path(id) =~= seq!['/', 'i', 'd', 's', '/'] + top + seq!['/'] + text::hex(id as nat));
    assert(id_path(id).take(5) =~= seq!['/', 'i', 'd', 's', '/']);
    assert(id_path(id).subrange(5, 5int + top.len()) =~= top);
    assert(id_path(id).skip(6int + top.len()) =~= text::hex(id as nat));
}

/// Of a page number the low 32 bits count.
pub proof fn lemma_low_page(page: int)
    ensures
        low_page(page) == page % 0x1_0000_0000,
        0 <= page <= 0xffff_ffff ==> low_page(page) == page,
{
}

} // verus!
