//! The working tree follows the user into the machine.
use crate::archive;
use crate::bytes;
use crate::digest;
use crate::guest;
use crate::paths;
use crate::proto;
use crate::seqs;
use crate::shim;
use crate::store;
use crate::text;
use vstd::prelude::*;

verus! {

/// Version of the guest agent's protocol. Part of the golden image's
/// identity, so that images with an older agent are built anew.
pub const AGENT_PROTO_VERSION: u8 = 4;

/// The most that is pushed into a machine in one frame.
pub const MAX_SYNC_BYTES: usize = 536870912;

/// The file that remembers what was last synced into a machine.
pub fn sync_state_path(runtime_dir: &str, project_root: &str, handle: &str) -> (r: String)
    ensures
        r@ == shim::runtime_file(runtime_dir@, project_root@, handle@, ".syncstate"@),
{
    shim::runtime_path(runtime_dir, project_root, handle, ".syncstate")
}

/// The files of a listing in which a NUL follows each name.
pub open spec fn listed(stdout: Seq<u8>) -> Seq<Seq<char>> {
    seqs::select(seqs::split(stdout, 0u8), |p: Seq<u8>| p.len() > 0).map_values(
        |p: Seq<u8>| text::lossy_of(p),
    )
}

/// Names of files, none of them empty and none with a NUL.
pub open spec fn are_files(names: Seq<Seq<char>>) -> bool {
    forall|i: int| 0 <= i < names.len() ==> (#[trigger] names[i]).len() > 0 && !names[i].contains('\0')
}

/// The names as git writes them, a NUL behind each.
pub open spec fn terminated(names: Seq<Seq<char>>) -> Seq<u8>
    decreases names.len(),
{
    if names.len() == 0 {
        Seq::<u8>::empty()
    } else {
        terminated(names.drop_last()) + vstd::utf8::encode_utf8(names.last()) + seq![0u8]
    }
}

/// The bytes of each name.
pub open spec fn encoded(names: Seq<Seq<char>>) -> Seq<Seq<u8>> {
    names.map_values(|n: Seq<char>| vstd::utf8::encode_utf8(n))
}

pub proof fn lemma_wire_nonempty(s: Seq<char>)
    requires
        s.len() > 0,
    ensures
        vstd::utf8::encode_utf8(s).len() > 0,
{
    vstd::utf8::encode_utf8_decode_utf8(s);
    vstd::utf8::encode_utf8_valid_utf8(s);
}

proof fn lemma_terminated_split(names: Seq<Seq<char>>)
    requires
        are_files(names),
    ensures
        seqs::split(terminated(names), 0u8) == encoded(names).push(Seq::<u8>::empty()),
    decreases names.len(),
{
    let none = Seq::<u8>::empty();
    if names.len() == 0 {
        assert(seqs::split(terminated(names), 0u8) =~= encoded(names).push(none));
    } else {
        let t = names.drop_last();
        assert forall|i: int| 0 <= i < t.len() implies (#[trigger] t[i]).len() > 0
            && !t[i].contains('\0') by {
            assert(names[i] == t[i]);
        }
        lemma_terminated_split(t);
        let w = vstd::utf8::encode_utf8(names.last());
        let n = names.len() - 1;
        assert(!names[n].contains('\0'));
        proto::lemma_wire_nonzero(names.last());
        let s = terminated(t);
        seqs::lemma_split_append(s, 0u8, w);
        assert(none + w =~= w);
        assert(seqs::split(s + w, 0u8) =~= encoded(t).push(w));
        let all = terminated(names);
        assert(all.drop_last() =~= s + w);
        assert(all.last() == 0u8);
        assert(seqs::split(all, 0u8) == seqs::split(s + w, 0u8).push(none));
        assert(encoded(t).push(w) =~= encoded(names));
    }
}

/// What is kept of the pieces of such a listing: the bytes of every name.
pub proof fn lemma_terminated_kept(names: Seq<Seq<char>>)
    requires
        are_files(names),
    ensures
        seqs::select(seqs::split(terminated(names), 0u8), |p: Seq<u8>| p.len() > 0) == encoded(
            names,
        ),
{
    lemma_terminated_split(names);
    let parts = encoded(names);
    let keep = |p: Seq<u8>| p.len() > 0;
    assert forall|i: int| 0 <= i < parts.len() implies keep(#[trigger] parts[i]) by {
        lemma_wire_nonempty(names[i]);
    }
    let none = Seq::<u8>::empty();
    seqs::lemma_select_all(parts, keep);
    assert(parts.push(none).drop_last() =~= parts);
}

/// The files git lists as the user's work, from its NUL-separated output. All
/// names of files are listed, in order.
pub fn worktree_files(stdout: &[u8]) -> (r: Vec<String>)
    ensures
        text::texts(r@) == listed(stdout@),
        forall|names: Seq<Seq<char>>|
            are_files(names) && stdout@ == #[trigger] terminated(names) ==> text::texts(r@)
                == names,
{
    let pieces = bytes::split_on(stdout, 0);
    let ghost all = seqs::split(stdout@, 0u8);
    let ghost keep = |p: Seq<u8>| p.len() > 0;
    let ghost name = |p: Seq<u8>| text::lossy_of(p);
    let mut out: Vec<String> = Vec::new();
    for i in 0..pieces.len()
        invariant
            bytes::byte_strings(pieces@) == all,
            keep == (|p: Seq<u8>| p.len() > 0),
            name == (|p: Seq<u8>| text::lossy_of(p)),
            text::texts(out@) == seqs::select(all.take(i as int), keep).map_values(name),
            forall|k: int|
                0 <= k < out@.len() && vstd::utf8::valid_utf8(
                    seqs::select(all.take(i as int), keep)[k],
                ) ==> (#[trigger] out@[k])@ == vstd::utf8::decode_utf8(
                    seqs::select(all.take(i as int), keep)[k],
                ),
    {
        let ghost t = all.take(i as int + 1);
        assert(t.drop_last() =~= all.take(i as int));
        assert(t.last() == pieces@[i as int]@);
        if pieces[i].len() > 0 {
            let ghost held = text::texts(out@);
            let ghost was = seqs::select(all.take(i as int), keep);
            assert(text::texts(out@).len() == was.len());
            out.push(text::lossy_text(&pieces[i]));
            assert(text::texts(out@) =~= held.push(text::lossy_of(pieces@[i as int]@)));
            assert(was.push(t.last()).map_values(name) =~= held.push(name(t.last())));
        }
    }
    assert(all.take(all.len() as int) =~= all);
    assert forall|names: Seq<Seq<char>>|
        are_files(names) && stdout@ == #[trigger] terminated(names) implies text::texts(out@)
        == names by {
        lemma_terminated_kept(names);
        let kept = seqs::select(all, keep);
        assert(text::texts(out@).len() == kept.len());
        assert forall|k: int| 0 <= k < names.len() implies text::texts(out@)[k] == names[k] by {
            vstd::utf8::encode_utf8_valid_utf8(names[k]);
            vstd::utf8::encode_utf8_decode_utf8(names[k]);
            assert(kept[k] == vstd::utf8::encode_utf8(names[k]));
            assert(out@[k]@ == names[k]);
        }
        assert(text::texts(out@) =~= names);
    }
    out
}

/// A file of the working tree: its path, and its size and modification time
/// in nanoseconds where it could be examined.
pub struct FileStamp {
    pub path: String,
    pub size_and_mtime: Option<(u64, u128)>,
}

/// What one file adds to the fingerprint.
pub open spec fn stamp_input(f: FileStamp) -> Seq<u8> {
    let name = proto::wire(f.path@) + seq![0u8];
    match f.size_and_mtime {
        Some((size, mtime)) => name + bytes::little_endian(size as nat, 8) + bytes::little_endian(
            mtime as nat,
            16,
        ),
        None => name,
    }
}

/// What the fingerprint is the hash of.
pub open spec fn fingerprint_input(files: Seq<FileStamp>) -> Seq<u8>
    decreases files.len(),
{
    if files.len() == 0 {
        Seq::<u8>::empty()
    } else {
        fingerprint_input(files.drop_last()) + stamp_input(files.last())
    }
}

/// Fingerprint of the tree's shape: paths, sizes and modification times. The
/// contents are not read.
pub fn fingerprint(files: &[FileStamp]) -> (r: String)
    ensures
        r@ == digest::hex_digest(fingerprint_input(files@)),
        r@.len() == 64,
{
    let mut input: Vec<u8> = Vec::new();
    for i in 0..files.len()
        invariant
            input@ == fingerprint_input(files@.take(i as int)),
    {
        assert(files@.take(i as int + 1).drop_last() =~= files@.take(i as int));
        let ghost held = input@;
        input.extend_from_slice(files[i].path.as_str().as_bytes());
        input.push(0);
        if let Some((size, mtime)) = files[i].size_and_mtime {
            bytes::push_little_endian(&mut input, size as u128, 8);
            bytes::push_little_endian(&mut input, mtime, 16);
        }
        assert(input@ =~= held + stamp_input(files@[i as int]));
    }
    assert(files@.take(files@.len() as int) =~= files@);
    digest::content_digest(&input)
}

/// The same paths, sizes and modification times.
pub open spec fn same_shape(a: Seq<FileStamp>, b: Seq<FileStamp>) -> bool {
    &&& a.len() == b.len()
    &&& forall|i: int|
        0 <= i < a.len() ==> (#[trigger] a[i]).path@ == b[i].path@ && a[i].size_and_mtime
            == b[i].size_and_mtime
}

/// A tree whose shape has not changed keeps its fingerprint, so it is not
/// pushed again.
pub proof fn unchanged_tree_keeps_fingerprint(a: Seq<FileStamp>, b: Seq<FileStamp>)
    requires
        same_shape(a, b),
    ensures
        digest::hex_digest(fingerprint_input(a)) == digest::hex_digest(fingerprint_input(b)),
        !must_push(
            Some(digest::hex_digest(fingerprint_input(a))),
            digest::hex_digest(fingerprint_input(b)),
        ),
{
    lemma_same_input(a, b);
}

proof fn lemma_same_input(a: Seq<FileStamp>, b: Seq<FileStamp>)
    requires
        same_shape(a, b),
    ensures
        fingerprint_input(a) == fingerprint_input(b),
    decreases a.len(),
{
    if a.len() > 0 {
        assert forall|i: int| 0 <= i < a.drop_last().len() implies (
        #[trigger] a.drop_last()[i]).path@ == b.drop_last()[i].path@
            && a.drop_last()[i].size_and_mtime == b.drop_last()[i].size_and_mtime by {
            assert(a[i].path@ == b[i].path@);
        }
        lemma_same_input(a.drop_last(), b.drop_last());
        assert(a[a.len() - 1].path@ == b[b.len() - 1].path@);
    }
}

/// The caller's tree belongs into the machine: the machine was created from
/// the repository that the caller is inside of.
pub open spec fn belongs(project_root: Seq<char>, repository: Option<Seq<char>>) -> bool {
    match repository {
        Some(root) => project_root.len() > 0 && paths::same_route(root, project_root),
        None => false,
    }
}

/// True if the machine receives the tree of a caller inside of `repository`.
pub fn receives_tree(machine: &store::Machine, repository: Option<&str>) -> (r: bool)
    ensures
        r == belongs(machine.project_root@, text::opt_str(repository)),
{
    if machine.project_root.as_str().is_empty() {
        return false;
    }
    match repository {
        Some(root) => paths::same_path(root, machine.project_root.as_str()),
        None => false,
    }
}

/// The tree differs from the one last pushed, or nothing is known of that.
pub open spec fn must_push(remembered: Option<Seq<char>>, fingerprint: Seq<char>) -> bool {
    remembered != Some(fingerprint)
}

/// True unless the fingerprint is the one remembered.
pub fn needs_push(remembered: Option<&str>, fingerprint: &str) -> (r: bool)
    ensures
        r == must_push(text::opt_str(remembered), fingerprint@),
{
    match remembered {
        Some(p) => !text::same(p, fingerprint),
        None => true,
    }
}

/// What a sync pushes: the fingerprint of the tree, where it belongs into
/// the machine and is not the one remembered.
pub open spec fn to_push(
    machine: store::Machine,
    repository: Option<Seq<char>>,
    files: Seq<FileStamp>,
    remembered: Option<Seq<char>>,
) -> Option<Seq<char>> {
    let print = digest::hex_digest(fingerprint_input(files));
    if belongs(machine.project_root@, repository) && must_push(remembered, print) {
        Some(print)
    } else {
        None
    }
}

/// Decides whether the caller's working tree is pushed into the machine.
/// Returns the fingerprint to remember once it is installed; nothing where
/// the machine has another repository, or the tree is unchanged.
pub fn sync_into(
    machine: &store::Machine,
    repository: Option<&str>,
    files: &[FileStamp],
    remembered: Option<&str>,
) -> (r: Option<String>)
    ensures
        text::opt_text(r) == to_push(
            *machine,
            text::opt_str(repository),
            files@,
            text::opt_str(remembered),
        ),
        r is Some ==> r->0@.len() == 64,
{
    if !receives_tree(machine, repository) {
        return None;
    }
    let print = fingerprint(files);
    if needs_push(remembered, print.as_str()) {
        Some(print)
    } else {
        None
    }
}

/// A tree that was pushed is not pushed again as long as its shape stays.
pub proof fn pushed_once(
    machine: store::Machine,
    repository: Option<Seq<char>>,
    files: Seq<FileStamp>,
    later: Seq<FileStamp>,
    remembered: Option<Seq<char>>,
    print: Seq<char>,
)
    requires
        to_push(machine, repository, files, remembered) == Some(print),
        same_shape(files, later),
    ensures
        to_push(machine, repository, later, Some(print)) is None,
{
    lemma_same_input(files, later);
}

/// What flate2's gzip encoder makes of a byte string at its fast level.
pub uninterp spec fn gzip_fast_of(input: Seq<u8>) -> Option<Seq<u8>>;

/// `flate2::write::GzEncoder` into a vector, at `Compression::fast`: the
/// compressed bytes, a function of the input alone; nothing where it fails.
/// What it makes, a gzip decoder turns back into the input.
#[verifier::external_body]
pub(crate) fn gzip_fast(input: &[u8]) -> (r: Option<Vec<u8>>)
    ensures
        archive::opt_bytes(r) == gzip_fast_of(input@),
        r is Some ==> archive::expands_to(r->0@, input@),
{
    let mut gz = flate2::write::GzEncoder::new(Vec::new(), flate2::Compression::fast());
    match std::io::Write::write_all(&mut gz, input) {
        Ok(()) => gz.finish().ok(),
        Err(_) => None,
    }
}

/// Why a tree is not pushed.
#[derive(PartialEq, Eq, Structural)]
pub enum PackError {
    /// The archive could not be compressed.
    Compression,
    /// The compressed archive has this many bytes, more than a frame may carry.
    TooLarge(usize),
}

/// What a compressed archive makes: itself, unless a frame cannot carry it.
pub open spec fn payload_of(compressed: Option<Vec<u8>>) -> Result<Vec<u8>, PackError> {
    match compressed {
        None => Err(PackError::Compression),
        Some(b) => if b@.len() > MAX_SYNC_BYTES {
            Err(PackError::TooLarge(b@.len() as usize))
        } else {
            Ok(b)
        },
    }
}

/// The payload that a compressed archive makes.
pub fn checked_payload(compressed: Option<Vec<u8>>) -> (r: Result<Vec<u8>, PackError>)
    ensures
        r == payload_of(compressed),
{
    match compressed {
        None => Err(PackError::Compression),
        Some(b) => {
            let n = b.len();
            if n > MAX_SYNC_BYTES {
                Err(PackError::TooLarge(n))
            } else {
                Ok(b)
            }
        },
    }
}

/// Compresses the archive of the tree into the payload of a sync frame, from
/// which the guest gets the archive back.
pub fn pack(tar: &[u8]) -> (r: Result<Vec<u8>, PackError>)
    ensures
        r is Ok ==> archive::delivered(r->Ok_0@) == (tar@, None::<Seq<char>>),
        match gzip_fast_of(tar@) {
            None => r == Err::<Vec<u8>, PackError>(PackError::Compression),
            Some(b) => if b.len() > MAX_SYNC_BYTES {
                r == Err::<Vec<u8>, PackError>(PackError::TooLarge(b.len() as usize))
            } else {
                r is Ok && r->Ok_0@ == b
            },
        },
{
    checked_payload(gzip_fast(tar))
}

/// What was pushed into a machine.
#[derive(Debug)]
pub struct SyncOutcome {
    pub files: usize,
    pub bytes: usize,
    pub workdir: String,
}

/// The machine did not install the tree.
pub open spec fn rejection_text(handle: Seq<char>, reply: Seq<u8>) -> Seq<char> {
    "machine '"@ + handle + "' could not install the working tree: "@ + text::trimmed(
        text::lossy_of(reply),
    ) + " (machines created before working-tree sync need `moo drop "@ + handle + "` and `moo new "@
        + handle + "`)"@
}

/// What the guest's reply to a sync frame means.
pub open spec fn sync_outcome(
    handle: Seq<char>,
    code: u8,
    reply: Seq<u8>,
    files: usize,
    bytes: usize,
    workdir: Seq<char>,
    r: Result<SyncOutcome, String>,
) -> bool {
    if code == 0 {
        r is Ok && r->Ok_0.files == files && r->Ok_0.bytes == bytes && r->Ok_0.workdir@ == workdir
    } else {
        r is Err && r->Err_0@ == rejection_text(handle, reply)
    }
}

/// What the guest's reply to a sync frame means: the tree is installed, or
/// the message to fail with.
pub fn sync_reply(
    handle: &str,
    code: u8,
    reply: &[u8],
    files: usize,
    bytes: usize,
    workdir: &str,
) -> (r: Result<SyncOutcome, String>)
    ensures
        sync_outcome(handle@, code, reply@, files, bytes, workdir@, r),
{
    if code != 0 {
        let mut m = "machine '".to_owned();
        m.append(handle);
        m.append("' could not install the working tree: ");
        m.append(text::trim(text::lossy_text(reply).as_str()).as_str());
        m.append(" (machines created before working-tree sync need `moo drop ");
        m.append(handle);
        m.append("` and `moo new ");
        m.append(handle);
        m.append("`)");
        return Err(m);
    }
    Ok(SyncOutcome { files, bytes, workdir: workdir.to_owned() })
}

} // verus!
