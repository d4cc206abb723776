use vstd::prelude::*;
use std::io::Cursor;
use zip::result::ZipError;
use zip::{CompressionMethod, ZipArchive, ZipWriter};
use vstd::string::StrSliceExecFns;
use vstd::utf8::{decode_utf8, decode_utf8_encode_utf8, encode_utf8, encode_utf8_decode_utf8, valid_utf8};
use crate::text::{apply, apply_seq, directed, lemma_apply_round_trip};
use crate::dictionary::{store_pairs, Dictionary};

verus! {

#[verifier::external_type_specification]
#[verifier::external_body]
#[verifier::reject_recursive_types(T)]
pub struct ExCursor<T>(Cursor<T>);

#[verifier::external_type_specification]
#[verifier::external_body]
#[verifier::reject_recursive_types(R)]
pub struct ExZipArchive<R>(ZipArchive<R>);

#[verifier::external_type_specification]
#[verifier::external_body]
pub struct ExZipError(ZipError);

#[verifier::external_type_specification]
#[verifier::external_body]
pub struct ExCompressionMethod(CompressionMethod);

#[verifier::external_type_specification]
#[verifier::external_body]
pub struct ExIoError(std::io::Error);

/// An archive read from bytes held in memory.
pub type Archive = ZipArchive<Cursor<Vec<u8>>>;

/// An archive being written to bytes held in memory. The zip writer is held
/// out of the verifier's sight, since its type is bounded by io traits.
#[verifier::external_body]
pub struct Writer {
    inner: ZipWriter<Cursor<Vec<u8>>>,
}

/// The bytes can be read as an archive.
pub uninterp spec fn archive_opens(b: Seq<u8>) -> bool;

/// The names of the entries of the archive that the bytes hold.
pub uninterp spec fn names_in(b: Seq<u8>) -> Seq<Seq<char>>;

/// The compression methods of the entries of the archive that the bytes hold.
pub uninterp spec fn methods_in(b: Seq<u8>) -> Seq<CompressionMethod>;

/// The decompressed bytes of the entries of the archive that the bytes hold.
pub uninterp spec fn contents_in(b: Seq<u8>) -> Seq<Seq<u8>>;

/// Entry `i` of the archive that the bytes hold can be read and decompressed.
pub uninterp spec fn readable_in(b: Seq<u8>, i: int) -> bool;

/// The names of the archive's entries, in the archive's order.
pub uninterp spec fn archive_names(a: Archive) -> Seq<Seq<char>>;

/// The compression method of each entry, in the archive's order.
pub uninterp spec fn archive_methods(a: Archive) -> Seq<CompressionMethod>;

/// The decompressed bytes of each entry, in the archive's order.
pub uninterp spec fn archive_contents(a: Archive) -> Seq<Seq<u8>>;

/// Entry `i` of the archive can be read and decompressed.
pub uninterp spec fn entry_readable(a: Archive, i: int) -> bool;

/// The writer can start an entry with this compression method.
pub uninterp spec fn method_writable(m: CompressionMethod) -> bool;

/// The writer has an entry open, into which written bytes go.
pub uninterp spec fn entry_open(w: Writer) -> bool;

/// The entries written so far: name, compression method and bytes.
pub uninterp spec fn written_entries(w: Writer) -> Seq<(Seq<char>, CompressionMethod, Seq<u8>)>;

/// The entries of the archive that the bytes hold: name, compression method
/// and decompressed bytes, in the archive's order.
pub open spec fn entries_in(b: Seq<u8>) -> Seq<(Seq<char>, CompressionMethod, Seq<u8>)> {
    Seq::new(names_in(b).len(), |i: int| (names_in(b)[i], methods_in(b)[i], contents_in(b)[i]))
}

/// No name occurs twice.
pub open spec fn distinct(names: Seq<Seq<char>>) -> bool {
    forall|i: int, j: int| 0 <= i < j < names.len() ==> names[i] != names[j]
}

/// Relies on ZipArchive::new, over a copy of the bytes: reads the archive's
/// central directory. The archive then holds what the bytes hold.
#[verifier::external_body]
fn open_archive(bytes: &[u8]) -> (r: Result<Archive, ZipError>)
    ensures
        r is Ok <==> archive_opens(bytes@),
        r matches Ok(a) ==> archive_names(a) == names_in(bytes@) && archive_methods(a)
            == methods_in(bytes@) && archive_contents(a) == contents_in(bytes@) && forall|i: int|
            #[trigger] entry_readable(a, i) == readable_in(bytes@, i),
{
    ZipArchive::new(Cursor::new(bytes.to_vec()))
}

/// Relies on ZipArchive::len: the number of entries, whose names are the
/// distinct keys of the archive's index.
#[verifier::external_body]
fn entry_count(a: &Archive) -> (r: usize)
    ensures
        r == archive_names(*a).len(),
        r == archive_methods(*a).len(),
        r == archive_contents(*a).len(),
        forall|i: int, j: int|
            0 <= i < j < r ==> archive_names(*a)[i] != archive_names(*a)[j],
{
    a.len()
}

/// Relies on ZipArchive::name_for_index: the name of entry `i`, present for
/// every index below the count.
#[verifier::external_body]
fn entry_name(a: &Archive, i: usize) -> (r: Option<String>)
    ensures
        i < archive_names(*a).len() ==> r is Some && r->0@ == archive_names(*a)[i as int],
{
    a.name_for_index(i).map(|s| s.to_string())
}

/// Relies on ZipArchive::by_index, read to the end: the compression method
/// and the decompressed bytes of entry `i`. Reading moves the archive's
/// cursor, not its entries. With the features built here only stored and
/// deflated entries can be decompressed, and the writer accepts both.
#[verifier::external_body]
fn read_entry(a: &mut Archive, i: usize) -> (r: Result<(CompressionMethod, Vec<u8>), ZipError>)
    ensures
        archive_names(*final(a)) == archive_names(*old(a)),
        archive_methods(*final(a)) == archive_methods(*old(a)),
        archive_contents(*final(a)) == archive_contents(*old(a)),
        forall|k: int| #[trigger] entry_readable(*final(a), k) == entry_readable(*old(a), k),
        r is Ok <==> i < archive_names(*old(a)).len() && entry_readable(*old(a), i as int),
        r matches Ok(p) ==> i < archive_names(*old(a)).len() && p.0 == archive_methods(
            *old(a),
        )[i as int] && p.1@ == archive_contents(*old(a))[i as int],
        r matches Ok(p) ==> method_writable(p.0),
{
    let mut file = a.by_index(i)?;
    let method = file.compression();
    let mut data = Vec::new();
    std::io::Read::read_to_end(&mut file, &mut data)?;
    Ok((method, data))
}

/// Relies on ZipWriter::new: a writer with no entries.
#[verifier::external_body]
fn new_writer() -> (r: Writer)
    ensures
        written_entries(r) == Seq::<(Seq<char>, CompressionMethod, Seq<u8>)>::empty(),
        !entry_open(r),
{
    Writer { inner: ZipWriter::new(Cursor::new(Vec::new())) }
}

/// Relies on ZipWriter::start_file, with the large-file option so that no
/// entry is limited to 4 GiB: finishes the open entry and opens a new, empty
/// one with this name and compression method. It fails only on a method it
/// cannot write or a name already written. A name longer than 65535 bytes
/// would panic when the header is built.
#[verifier::external_body]
fn start_entry(w: &mut Writer, name: &str, method: CompressionMethod) -> (r: Result<(), ZipError>)
    requires
        encode_utf8(name@).len() <= 65535,
    ensures
        r is Ok ==> written_entries(*final(w)) == written_entries(*old(w)).push(
            (name@, method, Seq::<u8>::empty()),
        ) && entry_open(*final(w)),
        method_writable(method) && (forall|k: int|
            0 <= k < written_entries(*old(w)).len() ==> (#[trigger] written_entries(*old(w))[k]).0
                != name@) ==> r is Ok,
{
    let options = zip::write::SimpleFileOptions::default().compression_method(method).large_file(
        true,
    );
    w.inner.start_file(name, options)
}

/// Relies on ZipWriter's Write::write_all: appends the bytes to the open
/// entry, the one written last; with an entry open (started with the
/// large-file option) writing into memory does not fail.
#[verifier::external_body]
fn write_data(w: &mut Writer, data: &[u8]) -> (r: Result<(), std::io::Error>)
    ensures
        entry_open(*old(w)) ==> r is Ok,
        r is Ok && entry_open(*old(w)) ==> entry_open(*final(w)) && written_entries(*old(w)).len()
            > 0 && written_entries(*final(w)) == written_entries(*old(w)).update(
            written_entries(*old(w)).len() - 1,
            (
                written_entries(*old(w)).last().0,
                written_entries(*old(w)).last().1,
                written_entries(*old(w)).last().2 + data@,
            ),
        ),
{
    std::io::Write::write_all(&mut w.inner, data)
}

/// Relies on ZipWriter::finish: writes the central directory and hands back
/// the archive's bytes, which read back as the entries written, each one
/// readable.
#[verifier::external_body]
fn finish_writer(w: Writer) -> (r: Result<Vec<u8>, ZipError>)
    ensures
        r is Ok,
        r matches Ok(b) ==> methods_in(b@).len() == written_entries(w).len() && contents_in(
            b@,
        ).len() == written_entries(w).len(),
        r matches Ok(b) ==> archive_opens(b@) && entries_in(b@) == written_entries(w) && forall|
            i: int,
        | 0 <= i < written_entries(w).len() ==> #[trigger] readable_in(b@, i),
{
    w.inner.finish().map(|c| c.into_inner())
}

/// Relies on String::from_utf8: the text that valid UTF-8 bytes encode, and
/// no text otherwise.
#[verifier::external_body]
fn decode_text(bytes: Vec<u8>) -> (r: Option<String>)
    ensures
        r is Some <==> valid_utf8(bytes@),
        r matches Some(s) ==> s@ == decode_utf8(bytes@),
{
    String::from_utf8(bytes).ok()
}

/// Why a container could not be rewritten.
#[derive(Debug, PartialEq, Eq, Structural, Clone, Copy)]
pub enum RewriteError {
    /// The bytes are not a readable archive, an entry cannot be read, or an
    /// entry's name is too long to be written back.
    ContainerFormat,
    /// No entry has the target name.
    EntryNotFound,
    /// The target entry is not valid UTF-8.
    Encoding,
    /// Writing the new archive failed.
    Io,
}

/// `t` is the first index at which `names` holds `x`.
pub open spec fn first_at(names: Seq<Seq<char>>, x: Seq<char>, t: int) -> bool {
    &&& 0 <= t < names.len()
    &&& names[t] == x
    &&& forall|u: int| 0 <= u < t ==> names[u] != x
}

/// The UTF-8 bytes of the text that `content` encodes, with the pairs applied.
pub open spec fn substituted_bytes(content: Seq<u8>, pairs: Seq<(Seq<char>, Seq<char>)>) -> Seq<u8> {
    encode_utf8(apply_seq(decode_utf8(content), pairs))
}

/// The entries of the new archive: each entry keeps its name and compression
/// method; those named `target` hold `data`, the others their old bytes.
pub open spec fn rewritten(
    names: Seq<Seq<char>>,
    methods: Seq<CompressionMethod>,
    contents: Seq<Seq<u8>>,
    target: Seq<char>,
    data: Seq<u8>,
) -> Seq<(Seq<char>, CompressionMethod, Seq<u8>)> {
    Seq::new(
        names.len(),
        |i: int|
            (names[i], methods[i], if names[i] == target {
                data
            } else {
                contents[i]
            }),
    )
}

/// `out` is the archive that rewriting the entries (`names`, `methods`,
/// `contents`) produces: the target entry exists and is valid UTF-8, and
/// `out` reads back as every entry in order, under its name and compression
/// method, the target holding its substituted text and the others their
/// bytes, each entry readable.
pub open spec fn rewrites_to(
    names: Seq<Seq<char>>,
    methods: Seq<CompressionMethod>,
    contents: Seq<Seq<u8>>,
    target: Seq<char>,
    pairs: Seq<(Seq<char>, Seq<char>)>,
    out: Seq<u8>,
) -> bool {
    &&& distinct(names)
    &&& names.len() == methods.len() && names.len() == contents.len()
    &&& archive_opens(out)
    &&& methods_in(out).len() == names.len() && contents_in(out).len() == names.len()
    &&& forall|i: int| 0 <= i < names.len() ==> #[trigger] readable_in(out, i)
    &&& exists|t: int|
        #[trigger] first_at(names, target, t) && valid_utf8(contents[t]) && entries_in(out)
            == rewritten(names, methods, contents, target, substituted_bytes(contents[t], pairs))
}

/// Every entry can be read and has a name of at most 65535 UTF-8 bytes; the
/// target entry exists and is valid UTF-8.
pub open spec fn rewritable(
    names: Seq<Seq<char>>,
    methods: Seq<CompressionMethod>,
    contents: Seq<Seq<u8>>,
    readable: spec_fn(int) -> bool,
    target: Seq<char>,
) -> bool {
    &&& names.contains(target)
    &&& forall|i: int|
        0 <= i < names.len() ==> readable(i) && encode_utf8(#[trigger] names[i]).len() <= 65535
    &&& forall|t: int| #[trigger] first_at(names, target, t) ==> valid_utf8(contents[t])
}

/// Rewrites an opened archive: substitutes the text of the entry named
/// `target` and writes every entry, in order, into a new archive, the target
/// with the new text and the others with their bytes, each under its name and
/// compression method.
pub fn rewrite_archive(
    a: &mut Archive,
    target: &str,
    pairs: &Vec<(String, String)>,
    reverse: bool,
) -> (r: Result<Vec<u8>, RewriteError>)
    ensures
        archive_names(*final(a)) == archive_names(*old(a)),
        archive_methods(*final(a)) == archive_methods(*old(a)),
        archive_contents(*final(a)) == archive_contents(*old(a)),
        (r == Err::<Vec<u8>, RewriteError>(RewriteError::EntryNotFound)) == !archive_names(
            *old(a),
        ).contains(target@),
        r matches Ok(b) ==> rewrites_to(
            archive_names(*old(a)),
            archive_methods(*old(a)),
            archive_contents(*old(a)),
            target@,
            directed(pairs@, reverse),
            b@,
        ),
        r == Err::<Vec<u8>, RewriteError>(RewriteError::Encoding) ==> exists|t: int|
            #[trigger] first_at(archive_names(*old(a)), target@, t) && !valid_utf8(
                archive_contents(*old(a))[t],
            ),
        forall|t: int| #[trigger]
            first_at(archive_names(*old(a)), target@, t) && entry_readable(*old(a), t)
                && !valid_utf8(archive_contents(*old(a))[t]) ==> r == Err::<Vec<u8>, RewriteError>(
                RewriteError::Encoding,
            ),
        rewritable(
            archive_names(*old(a)),
            archive_methods(*old(a)),
            archive_contents(*old(a)),
            |i: int| entry_readable(*old(a), i),
            target@,
        ) ==> r is Ok,
{
    let ghost names = archive_names(*a);
    let ghost methods = archive_methods(*a);
    let ghost contents = archive_contents(*a);
    let ghost start = *a;
    let ghost ps = directed(pairs@, reverse);
    let ghost feasible = rewritable(
        names,
        methods,
        contents,
        |i: int| entry_readable(*old(a), i),
        target@,
    );
    let tgt = target.to_owned();
    let n = entry_count(a);
    let mut t: usize = 0;
    let mut found = false;
    while t < n
        invariant
            n == names.len(),
            n == contents.len(),
            n == methods.len(),
            names == archive_names(*a),
            tgt@ == target@,
            t <= n,
            forall|u: int| 0 <= u < t ==> names[u] != target@,
            found ==> t < n && names[t as int] == target@,
        ensures
            found ==> t < n && names[t as int] == target@,
            !found ==> t == n,
            forall|u: int| 0 <= u < t ==> names[u] != target@,
        decreases n - t + (if found { 0int } else { 1int }),
    {
        match entry_name(a, t) {
            Some(name) => {
                if name == tgt {
                    found = true;
                    break;
                }
            },
            None => {},
        }
        t += 1;
    }
    if !found {
        assert(!names.contains(target@));
        return Err(RewriteError::EntryNotFound);
    }
    assert(first_at(names, target@, t as int));
    assert(names.contains(target@)) by {
        assert(names[t as int] == target@);
    }
    proof {
        if feasible {
            assert(encode_utf8(names[t as int]).len() <= 65535);
            assert(entry_readable(*a, t as int));
        }
    }
    let content = match read_entry(a, t) {
        Ok(p) => p.1,
        Err(_) => return Err(RewriteError::ContainerFormat),
    };
    let text = match decode_text(content) {
        Some(s) => s,
        None => return Err(RewriteError::Encoding),
    };
    let new_text = apply(text.as_str(), pairs, reverse);
    let new_bytes = new_text.as_str().as_bytes_vec();
    let ghost data = substituted_bytes(contents[t as int], ps);
    let ghost expected = rewritten(names, methods, contents, target@, data);
    assert(new_bytes@ == data);
    let mut w = new_writer();
    let mut i: usize = 0;
    while i < n
        invariant
            n == names.len(),
            n == contents.len(),
            n == methods.len(),
            distinct(names),
            names == archive_names(*a),
            methods == archive_methods(*a),
            contents == archive_contents(*a),
            forall|k: int| #[trigger] entry_readable(*a, k) == entry_readable(start, k),
            start == *old(a),
            names == archive_names(start),
            methods == archive_methods(start),
            contents == archive_contents(start),
            ps == directed(pairs@, reverse),
            expected == rewritten(names, methods, contents, target@, new_bytes@),
            tgt@ == target@,
            i <= n,
            written_entries(w) == expected.take(i as int),
            first_at(names, target@, t as int),
            valid_utf8(contents[t as int]),
            new_bytes@ == substituted_bytes(contents[t as int], ps),
            feasible == rewritable(
                names,
                methods,
                contents,
                |i: int| entry_readable(*old(a), i),
                target@,
            ),
        decreases n - i,
    {
        let name = match entry_name(a, i) {
            Some(s) => s,
            None => return Err(RewriteError::ContainerFormat),
        };
        proof {
            if feasible {
                assert(encode_utf8(names[i as int]).len() <= 65535);
                assert(entry_readable(start, i as int));
                assert(entry_readable(*a, i as int));
            }
        }
        let entry = match read_entry(a, i) {
            Ok(p) => p,
            Err(_) => return Err(RewriteError::ContainerFormat),
        };
        let (method, data) = entry;
        assert forall|k: int| 0 <= k < written_entries(w).len() implies (
        #[trigger] written_entries(w)[k]).0 != name@ by {
            assert(written_entries(w)[k].0 == names[k]);
        }
        if name.as_str().as_bytes().len() > 65535 {
            return Err(RewriteError::ContainerFormat);
        }
        match start_entry(&mut w, name.as_str(), method) {
            Ok(()) => {},
            Err(_) => return Err(RewriteError::Io),
        }
        let res = if name == tgt {
            write_data(&mut w, new_bytes.as_slice())
        } else {
            write_data(&mut w, data.as_slice())
        };
        match res {
            Ok(()) => {},
            Err(_) => return Err(RewriteError::Io),
        }
        assert(written_entries(w) =~= expected.take(i + 1));
        i += 1;
    }
    assert(expected.take(n as int) =~= expected);
    match finish_writer(w) {
        Ok(b) => {
            assert(first_at(names, target@, t as int));
            Ok(b)
        },
        Err(_) => Err(RewriteError::Io),
    }
}

/// The entry that holds a word-processing document's text.
pub const DOCUMENT_ENTRY: &'static str = "word/document.xml";

/// Rewrites the archive held in `container`: the bytes are read as an
/// archive, then handed to `rewrite_archive`. Bytes that cannot be read as an
/// archive give `ContainerFormat`.
pub fn rewrite(container: &[u8], target: &str, pairs: &Vec<(String, String)>, reverse: bool) -> (r:
    Result<Vec<u8>, RewriteError>)
    ensures
        !archive_opens(container@) ==> r == Err::<Vec<u8>, RewriteError>(
            RewriteError::ContainerFormat,
        ),
        archive_opens(container@) ==> ((r == Err::<Vec<u8>, RewriteError>(
            RewriteError::EntryNotFound,
        )) <==> !names_in(container@).contains(target@)),
        r matches Ok(b) ==> rewrites_to(
            names_in(container@),
            methods_in(container@),
            contents_in(container@),
            target@,
            directed(pairs@, reverse),
            b@,
        ),
        r == Err::<Vec<u8>, RewriteError>(RewriteError::Encoding) ==> exists|t: int|
            #[trigger] first_at(names_in(container@), target@, t) && !valid_utf8(
                contents_in(container@)[t],
            ),
        archive_opens(container@) ==> forall|t: int| #[trigger]
            first_at(names_in(container@), target@, t) && readable_in(container@, t)
                && !valid_utf8(contents_in(container@)[t]) ==> r == Err::<Vec<u8>, RewriteError>(
                RewriteError::Encoding,
            ),
        archive_opens(container@) && rewritable(
            names_in(container@),
            methods_in(container@),
            contents_in(container@),
            |i: int| readable_in(container@, i),
            target@,
        ) ==> r is Ok,
{
    match open_archive(container) {
        Ok(a) => {
            let mut a = a;
            let ghost a0 = a;
            assert((|i: int| entry_readable(a0, i)) =~= (|i: int| readable_in(container@, i)));
            rewrite_archive(&mut a, target, pairs, reverse)
        },
        Err(_) => Err(RewriteError::ContainerFormat),
    }
}

/// Rewrites the document text of the word-processing archive `container`
/// with the stored pairs of `dict`, in storage order; with `reverse` each
/// pair maps `replace` back to `find`.
pub fn process_document(dict: &Dictionary, container: &[u8], reverse: bool) -> (r: Result<
    Vec<u8>,
    RewriteError,
>)
    ensures
        !archive_opens(container@) ==> r == Err::<Vec<u8>, RewriteError>(
            RewriteError::ContainerFormat,
        ),
        archive_opens(container@) ==> ((r == Err::<Vec<u8>, RewriteError>(
            RewriteError::EntryNotFound,
        )) <==> !names_in(container@).contains(DOCUMENT_ENTRY@)),
        r matches Ok(b) ==> rewrites_to(
            names_in(container@),
            methods_in(container@),
            contents_in(container@),
            DOCUMENT_ENTRY@,
            store_pairs(dict@, reverse),
            b@,
        ),
        r == Err::<Vec<u8>, RewriteError>(RewriteError::Encoding) ==> exists|t: int|
            #[trigger] first_at(names_in(container@), DOCUMENT_ENTRY@, t) && !valid_utf8(
                contents_in(container@)[t],
            ),
        archive_opens(container@) ==> forall|t: int| #[trigger]
            first_at(names_in(container@), DOCUMENT_ENTRY@, t) && readable_in(container@, t)
                && !valid_utf8(contents_in(container@)[t]) ==> r == Err::<Vec<u8>, RewriteError>(
                RewriteError::Encoding,
            ),
        archive_opens(container@) && rewritable(
            names_in(container@),
            methods_in(container@),
            contents_in(container@),
            |i: int| readable_in(container@, i),
            DOCUMENT_ENTRY@,
        ) ==> r is Ok,
{
    let pairs = dict.pairs();
    assert(directed(pairs@, reverse) == store_pairs(dict@, reverse));
    rewrite(container, DOCUMENT_ENTRY, &pairs, reverse)
}

proof fn lemma_rewritten_parts(
    names: Seq<Seq<char>>,
    methods: Seq<CompressionMethod>,
    contents: Seq<Seq<u8>>,
    target: Seq<char>,
    pairs: Seq<(Seq<char>, Seq<char>)>,
    out: Seq<u8>,
) -> (t: int)
    requires
        rewrites_to(names, methods, contents, target, pairs, out),
    ensures
        first_at(names, target, t),
        valid_utf8(contents[t]),
        names_in(out) == names,
        methods_in(out) == methods,
        contents_in(out).len() == contents.len(),
        forall|i: int|
            0 <= i < names.len() ==> #[trigger] contents_in(out)[i] == if names[i] == target {
                substituted_bytes(contents[t], pairs)
            } else {
                contents[i]
            },
{
    let t = choose|t: int|
        #[trigger] first_at(names, target, t) && valid_utf8(contents[t]) && entries_in(out)
            == rewritten(names, methods, contents, target, substituted_bytes(contents[t], pairs));
    let e = entries_in(out);
    let x = rewritten(names, methods, contents, target, substituted_bytes(contents[t], pairs));
    assert(e.len() == names_in(out).len());
    assert(names_in(out) =~= names) by {
        assert forall|i: int| 0 <= i < names.len() implies names_in(out)[i] == names[i] by {
            assert(e[i] == x[i]);
        }
    }
    assert(methods_in(out) =~= methods) by {
        assert forall|i: int| 0 <= i < methods.len() implies methods_in(out)[i] == methods[i] by {
            assert(e[i] == x[i]);
        }
    }
    assert forall|i: int| 0 <= i < names.len() implies #[trigger] contents_in(out)[i] == if names[i]
        == target {
        substituted_bytes(contents[t], pairs)
    } else {
        contents[i]
    } by {
        assert(e[i] == x[i]);
    }
    t
}

/// Rewriting keeps the archive's shape: the new archive has the same names
/// and compression methods in the same order, every entry but the target
/// keeps its bytes, and the target's text is the old text with the pairs
/// applied.
pub proof fn lemma_rewrite_keeps_entries(
    names: Seq<Seq<char>>,
    methods: Seq<CompressionMethod>,
    contents: Seq<Seq<u8>>,
    target: Seq<char>,
    pairs: Seq<(Seq<char>, Seq<char>)>,
    out: Seq<u8>,
)
    requires
        rewrites_to(names, methods, contents, target, pairs, out),
    ensures
        names_in(out) == names,
        methods_in(out) == methods,
        contents_in(out).len() == contents.len(),
        forall|i: int|
            0 <= i < names.len() && names[i] != target ==> #[trigger] contents_in(out)[i]
                == contents[i],
        forall|t: int|
            #[trigger] first_at(names, target, t) ==> valid_utf8(contents_in(out)[t])
                && decode_utf8(contents_in(out)[t]) == apply_seq(decode_utf8(contents[t]), pairs),
{
    let t = lemma_rewritten_parts(names, methods, contents, target, pairs, out);
    assert forall|u: int| #[trigger] first_at(names, target, u) implies valid_utf8(
        contents_in(out)[u],
    ) && decode_utf8(contents_in(out)[u]) == apply_seq(decode_utf8(contents[u]), pairs) by {
        if u < t {
        } else if u > t {
        }
        assert(u == t);
        assert(contents_in(out)[t] == substituted_bytes(contents[t], pairs));
        broadcast use vstd::utf8::encode_utf8_valid_utf8;
        encode_utf8_decode_utf8(apply_seq(decode_utf8(contents[t]), pairs));
    }
}

/// Rewriting with no pairs leaves every entry as it was: same names,
/// compression methods and bytes.
pub proof fn lemma_empty_pairs_keep_entries(
    names: Seq<Seq<char>>,
    methods: Seq<CompressionMethod>,
    contents: Seq<Seq<u8>>,
    target: Seq<char>,
    out: Seq<u8>,
)
    requires
        rewrites_to(names, methods, contents, target, Seq::empty(), out),
    ensures
        names_in(out) == names,
        methods_in(out) == methods,
        contents_in(out) == contents,
{
    let t = lemma_rewritten_parts(names, methods, contents, target, Seq::empty(), out);
    decode_utf8_encode_utf8(contents[t]);
    assert(substituted_bytes(contents[t], Seq::empty()) == contents[t]);
    assert forall|i: int| 0 <= i < names.len() implies contents_in(out)[i] == contents[i] by {
        if names[i] == target {
            if i < t {
            } else if i > t {
            }
            assert(i == t);
        }
    }
    assert(contents_in(out) =~= contents);
}

/// Rewriting with one pair forward, then rewriting the result with the same
/// pair in reverse, gives back every entry as it was, when the first
/// character of the pair's `replace` does not occur in the target's text.
pub proof fn lemma_rewrite_round_trip(
    names: Seq<Seq<char>>,
    methods: Seq<CompressionMethod>,
    contents: Seq<Seq<u8>>,
    target: Seq<char>,
    pairs: Seq<(String, String)>,
    mid: Seq<u8>,
    out: Seq<u8>,
)
    requires
        pairs.len() == 1,
        pairs[0].0@.len() > 0,
        pairs[0].1@.len() > 0,
        forall|t: int| #[trigger]
            first_at(names, target, t) ==> !decode_utf8(contents[t]).contains(pairs[0].1@[0]),
        rewrites_to(names, methods, contents, target, directed(pairs, false), mid),
        rewrites_to(
            names_in(mid),
            methods_in(mid),
            contents_in(mid),
            target,
            directed(pairs, true),
            out,
        ),
    ensures
        names_in(out) == names,
        methods_in(out) == methods,
        contents_in(out) == contents,
{
    let t = lemma_rewritten_parts(names, methods, contents, target, directed(pairs, false), mid);
    let u = lemma_rewritten_parts(
        names_in(mid),
        methods_in(mid),
        contents_in(mid),
        target,
        directed(pairs, true),
        out,
    );
    if u < t {
    } else if u > t {
    }
    assert(u == t);
    let text = decode_utf8(contents[t]);
    let m = apply_seq(text, directed(pairs, false));
    assert(contents_in(mid)[t] == encode_utf8(m));
    encode_utf8_decode_utf8(m);
    lemma_apply_round_trip(text, pairs);
    decode_utf8_encode_utf8(contents[t]);
    assert forall|i: int| 0 <= i < names.len() implies contents_in(out)[i] == contents[i] by {
        if names[i] == target {
            if i < t {
            } else if i > t {
            }
            assert(i == t);
        }
    }
    assert(contents_in(out) =~= contents);
}

} // verus!
