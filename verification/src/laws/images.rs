//! Which image a machine starts from, and how it is built.
use crate::bytes;
use crate::config;
use crate::digest;
use crate::image;
use crate::json;
use crate::laws::trees;
use crate::paths;
use crate::seqs;
use crate::text;
use vstd::prelude::*;

verus! {

/// A build is for the guest where it is for linux and arm64, both exactly.
pub open spec fn fits_guest(row: image::PlatformRow) -> bool {
    text::opt_text(row.os) == Some("linux"@) && text::opt_text(row.architecture) == Some("arm64"@)
}

/// The build that is chosen is the first one for linux on arm64; where there
/// is none, none is chosen.
pub proof fn builds_are_for_the_guest(rows: Seq<image::PlatformRow>)
    ensures
        match image::guest_build(image::row_models(rows)) {
            Some(d) => exists|i: int|
                {
                    &&& 0 <= i < rows.len()
                    &&& fits_guest(#[trigger] rows[i])
                    &&& text::opt_text(rows[i].digest) == Some(d)
                    &&& forall|j: int| 0 <= j < i ==> !fits_guest(#[trigger] rows[j])
                },
            None => (forall|i: int| 0 <= i < rows.len() ==> !fits_guest(#[trigger] rows[i])) || (
            exists|i: int|
                {
                    &&& 0 <= i < rows.len()
                    &&& fits_guest(#[trigger] rows[i])
                    &&& rows[i].digest is None
                    &&& forall|j: int| 0 <= j < i ==> !fits_guest(#[trigger] rows[j])
                }),
        },
        (forall|i: int| 0 <= i < rows.len() ==> !fits_guest(#[trigger] rows[i]))
            ==> image::guest_build(image::row_models(rows)) is None,
    decreases rows.len(),
{
    if rows.len() > 0 {
        let t = rows.skip(1);
        builds_are_for_the_guest(t);
        assert(image::row_models(rows)[0] == image::row_model(rows[0]));
        assert(image::row_models(rows).skip(1) =~= image::row_models(t));
        let found = image::guest_build(image::row_models(t));
        assert forall|j: int| 1 <= j < rows.len() implies #[trigger] rows[j] == t[j - 1] by {}
        if fits_guest(rows[0]) {
            assert(image::guest_build(image::row_models(rows)) == text::opt_text(rows[0].digest));
        } else {
            assert(image::guest_build(image::row_models(rows)) == found);
            if forall|i: int| 0 <= i < t.len() ==> !fits_guest(#[trigger] t[i]) {
            } else {
                let i = choose|i: int|
                    {
                        &&& 0 <= i < t.len()
                        &&& fits_guest(#[trigger] t[i])
                        &&& text::opt_text(t[i].digest) == found
                        &&& forall|j: int| 0 <= j < i ==> !fits_guest(#[trigger] t[j])
                    };
                assert(fits_guest(rows[i + 1]));
            }
            assert forall|i: int| 0 <= i < t.len() implies #[trigger] t[i] == rows[i + 1] by {}
        }
    }
}

/// The builds of an index are read where the index lists them.
pub proof fn builds_are_read_in_place(body: Seq<u8>, n: nat, i: int)
    requires
        0 <= i < n,
    ensures
        image::listed_builds(body, n).len() == n,
        image::listed_builds(body, n)[i].0 == json::json_text_of(
            body,
            "/manifests/"@ + text::decimal(i as nat) + "/platform/os"@,
        ),
        image::listed_builds(body, n)[i].1 == json::json_text_of(
            body,
            "/manifests/"@ + text::decimal(i as nat) + "/platform/architecture"@,
        ),
        image::listed_builds(body, n)[i].2 == json::json_text_of(
            body,
            "/manifests/"@ + text::decimal(i as nat) + "/digest"@,
        ),
{
}

/// The layers of a manifest are read where the manifest lists them. What is
/// missing reads as empty, and as zero.
pub proof fn layers_are_read_in_place(body: Seq<u8>, i: nat)
    ensures
        ({
            let at = "/layers/"@ + text::decimal(i);
            let digest = json::json_text_of(body, at + "/digest"@);
            let media = json::json_text_of(body, at + "/mediaType"@);
            let size = json::json_integer_of(body, at + "/size"@);
            &&& digest is Some ==> image::listed_layer(body, i).0 == digest->0
            &&& digest is None ==> image::listed_layer(body, i).0.len() == 0
            &&& media is Some ==> image::listed_layer(body, i).1 == media->0
            &&& media is None ==> image::listed_layer(body, i).1.len() == 0
            &&& size is Some ==> image::listed_layer(body, i).2 == size->0
            &&& size is None ==> image::listed_layer(body, i).2 == 0
        }),
{
}

/// A layer is used where its type says tar, and not zstd.
pub proof fn tar_layers_are_used(base_ref: Seq<char>, media: Seq<char>)
    ensures
        image::layer_problem(base_ref, media) is None <==> {
            &&& exists|i: int|
                0 <= i <= media.len() - 3 && #[trigger] media.subrange(i, i + 3) == "tar"@
            &&& !exists|i: int|
                0 <= i <= media.len() - 4 && #[trigger] media.subrange(i, i + 4) == "zstd"@
        },
{
    reveal_strlit("tar");
    reveal_strlit("zstd");
    assert("tar"@.len() == 3);
    assert("zstd"@.len() == 4);
    if text::holds(media, "tar"@) {
        let i = choose|i: int|
            0 <= i <= media.len() - "tar"@.len() && #[trigger] media.subrange(i, i + "tar"@.len())
                == "tar"@;
        assert(media.subrange(i, i + 3) == "tar"@);
    }
    if exists|i: int| 0 <= i <= media.len() - 3 && #[trigger] media.subrange(i, i + 3) == "tar"@ {
        let i = choose|i: int|
            0 <= i <= media.len() - 3 && #[trigger] media.subrange(i, i + 3) == "tar"@;
        assert(media.subrange(i, i + "tar"@.len()) == "tar"@);
    }
    if text::holds(media, "zstd"@) {
        let i = choose|i: int|
            0 <= i <= media.len() - "zstd"@.len() && #[trigger] media.subrange(
                i,
                i + "zstd"@.len(),
            ) == "zstd"@;
        assert(media.subrange(i, i + 4) == "zstd"@);
    }
    if exists|i: int| 0 <= i <= media.len() - 4 && #[trigger] media.subrange(i, i + 4) == "zstd"@ {
        let i = choose|i: int|
            0 <= i <= media.len() - 4 && #[trigger] media.subrange(i, i + 4) == "zstd"@;
        assert(media.subrange(i, i + "zstd"@.len()) == "zstd"@);
    }
}

/// A text that holds none of the characters that structure a reference.
pub open spec fn is_bare(s: Seq<char>) -> bool {
    forall|i: int|
        0 <= i < s.len() ==> (#[trigger] s[i]) != '/' && s[i] != ':' && s[i] != '@' && s[i] != '.'
}

proof fn lemma_no_tag(s: Seq<char>)
    requires
        !s.contains(':'),
    ensures
        image::tag_colon(s) == -1,
{
    assert forall|j: int| 0 <= j < s.len() implies s[j] != ':' by {
        assert(s.contains(s[j]));
    }
    seqs::lemma_last_index_of(s, ':', -1);
}

proof fn lemma_tagged(name: Seq<char>, tag: Seq<char>)
    requires
        !tag.contains(':'),
        !tag.contains('/'),
    ensures
        image::tag_colon(name + seq![':'] + tag) == name.len(),
{
    let s = name + seq![':'] + tag;
    let n = name.len() as int;
    assert(s[n] == ':');
    assert forall|j: int| n < j < s.len() implies s[j] != ':' by {
        assert(s[j] == tag[j - n - 1]);
        assert(tag.contains(tag[j - n - 1]));
    }
    seqs::lemma_last_index_of(s, ':', n);
    assert(s.skip(n + 1) =~= tag);
}

proof fn lemma_no_digest(s: Seq<char>)
    requires
        !s.contains('@'),
    ensures
        image::before_digest(s) == s,
        image::version_part(s) == image::tag_part(s),
{
    seqs::lemma_index_of_bounds(s, '@');
    assert(s.take(s.len() as int) =~= s);
}

/// A bare name is an official image of the public registry, at its latest.
pub proof fn bare_names_are_official(name: Seq<char>)
    requires
        is_bare(name),
    ensures
        image::ref_of(name).registry == "registry-1.docker.io"@,
        image::ref_of(name).repo == "library/"@ + name,
        image::ref_of(name).tag == "latest"@,
{
    assert(!name.contains(':') && !name.contains('/') && !name.contains('@'));
    lemma_no_tag(name);
    lemma_no_digest(name);
}

/// A tag behind the last colon is the tag that is asked for, and leaves the
/// registry and the repository as they are without it.
pub proof fn tags_are_asked_for(name: Seq<char>, tag: Seq<char>)
    requires
        !name.contains('@'),
        !tag.contains('@') && !tag.contains(':') && !tag.contains('/'),
        image::tag_colon(name) == -1,
    ensures
        image::ref_of(name + seq![':'] + tag).tag == tag,
        image::ref_of(name + seq![':'] + tag).registry == image::ref_of(name).registry,
        image::ref_of(name + seq![':'] + tag).repo == image::ref_of(name).repo,
        image::ref_of(name).tag == "latest"@,
{
    let s = name + seq![':'] + tag;
    lemma_tagged(name, tag);
    assert(!s.contains('@')) by {
        if s.contains('@') {
            let k = choose|k: int| 0 <= k < s.len() && s[k] == '@';
            if k < name.len() {
                assert(name.contains(name[k]));
            } else if k > name.len() {
                assert(tag.contains(tag[k - name.len() - 1]));
            }
        }
    }
    lemma_no_digest(s);
    lemma_no_digest(name);
    assert(s.take(name.len() as int) =~= name);
    assert(s.skip(name.len() as int + 1) =~= tag);
}

/// A first part with a dot or a colon, or `localhost`, is the registry, and
/// the rest is the repository there. Any other first part belongs to a
/// repository of the public registry.
pub proof fn hosts_are_asked(host: Seq<char>, repo: Seq<char>)
    requires
        !host.contains('/') && !host.contains('@'),
        !repo.contains('@') && !repo.contains(':'),
    ensures
        ({
            let r = image::ref_of(host + seq!['/'] + repo);
            if host.contains('.') || host.contains(':') || host == "localhost"@ {
                r.registry == host && r.repo == repo
            } else {
                r.registry == "registry-1.docker.io"@ && r.repo == host + seq!['/'] + repo
            }
        }),
        image::ref_of(host + seq!['/'] + repo).tag == "latest"@,
{
    let s = host + seq!['/'] + repo;
    let n = host.len() as int;
    assert(s[n] == '/');
    assert(s.contains('/'));
    assert(!s.contains('@')) by {
        if s.contains('@') {
            let k = choose|k: int| 0 <= k < s.len() && s[k] == '@';
            if k < n {
                assert(host.contains(host[k]));
            } else if k > n {
                assert(repo.contains(repo[k - n - 1]));
            }
        }
    }
    lemma_no_digest(s);
    assert(image::tag_colon(s) == -1) by {
        let i = seqs::last_index_of(s, ':');
        lemma_last_colon(s);
        if i >= 0 {
            assert(i < n) by {
                if i > n {
                    assert(s[i] == repo[i - n - 1]);
                    assert(repo.contains(repo[i - n - 1]));
                }
            }
            assert(s.skip(i + 1)[n - i - 1] == '/');
            assert(s.skip(i + 1).contains('/'));
        }
    }
    assert forall|j: int| 0 <= j < n implies s[j] != '/' by {
        assert(host.contains(host[j]));
    }
    seqs::lemma_index_of(s, '/', n);
    assert(s.take(n) =~= host);
    assert(s.skip(n + 1) =~= repo);
}

proof fn lemma_last_colon(s: Seq<char>)
    ensures
        -1 <= seqs::last_index_of(s, ':') < s.len(),
        seqs::last_index_of(s, ':') >= 0 ==> s[seqs::last_index_of(s, ':')] == ':',
    decreases s.len(),
{
    if s.len() > 0 {
        lemma_last_colon(s.drop_last());
    }
}

/// A value of a challenge: no comma, no quote, and no white space at its ends.
pub open spec fn is_value(s: Seq<char>) -> bool {
    &&& forall|i: int| 0 <= i < s.len() ==> (#[trigger] s[i]) != ',' && s[i] != '"'
    &&& s.len() > 0
    &&& !text::is_space(s[0])
    &&& !text::is_space(s.last())
}

proof fn lemma_field(key: Seq<char>, value: Seq<char>)
    requires
        is_value(value),
        key.len() > 0,
        forall|i: int|
            0 <= i < key.len() ==> (#[trigger] key[i]) != '=' && !text::is_space(key[i]),
    ensures
        image::challenge_field(key + seq!['=', '"'] + value + seq!['"']) == Some((key, value)),
{
    let part = key + seq!['=', '"'] + value + seq!['"'];
    let n = key.len() as int;
    assert forall|j: int| 0 <= j < n implies part[j] != '=' by {
        assert(part[j] == key[j]);
    }
    assert(part[n] == '=');
    seqs::lemma_index_of(part, '=', n);
    assert(part.take(n) =~= key);
    assert(!text::is_space(key[0]) && !text::is_space(key[n - 1]));
    assert(text::trimmed(key) == key);
    let quoted = seq!['"'] + value + seq!['"'];
    assert(part.skip(n + 1) =~= quoted);
    assert(!text::is_space('"'));
    assert(quoted[0] == '"' && quoted.last() == '"');
    assert(text::trimmed(quoted) == quoted);
    let rest = value + seq!['"'];
    assert(quoted.skip(1) =~= rest);
    assert(rest[0] == value[0]);
    assert(value[0] != '"');
    assert(text::without_leading(quoted, '"') == text::without_leading(quoted.skip(1), '"'));
    assert(text::without_leading(rest, '"') == rest);
    assert(rest.drop_last() =~= value);
    assert(value[value.len() - 1] != '"');
    assert(text::without_trailing(rest, '"') == text::without_trailing(rest.drop_last(), '"'));
    assert(text::without_trailing(value, '"') == value);
}

/// A registry's challenge is read: `Bearer realm="…",service="…",scope="…"`
/// says whom to ask for a token, and for what.
#[verifier::rlimit(40)]
pub proof fn challenges_are_read(realm: Seq<char>, service: Seq<char>, scope: Seq<char>)
    requires
        is_value(realm),
        is_value(service),
        is_value(scope),
    ensures
        ({
            let challenge = "Bearer realm=\""@ + realm + "\",service=\""@ + service + "\",scope=\""@
                + scope + "\""@;
            &&& image::field_of(challenge, "realm"@) == Some(realm)
            &&& image::field_of(challenge, "service"@) == Some(service)
            &&& image::field_of(challenge, "scope"@) == Some(scope)
        }),
{
    reveal_strlit("Bearer realm=\"");
    reveal_strlit("\",service=\"");
    reveal_strlit("\",scope=\"");
    reveal_strlit("\"");
    reveal_strlit("Bearer ");
    reveal_strlit("realm");
    reveal_strlit("service");
    reveal_strlit("scope");
    let challenge = "Bearer realm=\""@ + realm + "\",service=\""@ + service + "\",scope=\""@ + scope
        + "\""@;
    let a = "realm"@ + seq!['=', '"'] + realm + seq!['"'];
    let b = "service"@ + seq!['=', '"'] + service + seq!['"'];
    let c = "scope"@ + seq!['=', '"'] + scope + seq!['"'];
    let rest = a + seq![','] + b + seq![','] + c;
    assert(challenge =~= "Bearer "@ + rest);
    assert("Bearer "@.is_prefix_of(challenge));
    assert(challenge.skip(7) =~= rest);
    assert(rest[0] == 'r');
    assert(!"Bearer "@.is_prefix_of(rest)) by {
        if "Bearer "@.is_prefix_of(rest) {
            assert("Bearer "@[0] == rest[0]);
        }
    }
    assert(text::without_prefixes(challenge, "Bearer "@) == text::without_prefixes(
        challenge.skip(7),
        "Bearer "@,
    ));
    assert(text::without_prefixes(challenge, "Bearer "@) == rest);
    lemma_no_comma("realm"@, realm);
    lemma_no_comma("service"@, service);
    lemma_no_comma("scope"@, scope);
    let parts = seq![a, b, c];
    assert forall|i: int| 0 <= i < parts.len() implies !(#[trigger] parts[i]).contains(',') by {}
    seqs::split_of_join(parts, ',');
    let two = parts.drop_last();
    assert(two =~= seq![a, b]);
    assert(two.drop_last() =~= seq![a]);
    assert(seqs::join(seq![a], seq![',']) =~= a);
    assert(seqs::join(two, seq![',']) =~= a + seq![','] + b);
    assert(seqs::join(parts, seq![',']) =~= rest);
    assert(seqs::split(rest, ',') == parts);
    lemma_field("realm"@, realm);
    lemma_field("service"@, service);
    lemma_field("scope"@, scope);
    assert("realm"@ != "service"@) by {
        assert("realm"@.len() == 5 && "service"@.len() == 7);
    }
    assert("scope"@[0] == 's' && "realm"@[0] == 'r');
    assert("scope"@.len() == 5 && "service"@.len() == 7);
    let one = two.drop_last();
    assert(parts.last() == c && two.last() == b && one.last() == a);
    assert(image::field_among(parts, "scope"@) == Some(scope));
    assert(image::field_among(parts, "service"@) == image::field_among(two, "service"@));
    assert(image::field_among(two, "service"@) == Some(service));
    assert(image::field_among(parts, "realm"@) == image::field_among(two, "realm"@));
    assert(image::field_among(two, "realm"@) == image::field_among(one, "realm"@));
    assert(image::field_among(one, "realm"@) == Some(realm));
}

proof fn lemma_no_comma(key: Seq<char>, value: Seq<char>)
    requires
        is_value(value),
        !key.contains(','),
    ensures
        !(key + seq!['=', '"'] + value + seq!['"']).contains(','),
{
    let part = key + seq!['=', '"'] + value + seq!['"'];
    if part.contains(',') {
        let k = choose|k: int| 0 <= k < part.len() && part[k] == ',';
        if k < key.len() {
            assert(key.contains(key[k]));
        } else if k >= key.len() + 2 && k < part.len() - 1 {
            assert(part[k] == value[k - key.len() - 2]);
        }
    }
}

/// A token at `token` is the token; one at `access_token` is only where
/// nothing is at `token`.
pub proof fn tokens_are_picked(token: Option<Seq<char>>, access_token: Option<Seq<char>>)
    ensures
        image::token_in(true, token, access_token) == token,
        image::token_in(false, token, access_token) == access_token,
{
}

/// Manifests and layers are fetched over TLS from the registry and the
/// repository of the reference, each by its own name.
pub proof fn fetched_from_the_reference(img: image::ImageRef, name: Seq<char>)
    ensures
        img.manifest_at(name) == "https://"@ + img.registry@ + "/v2/"@ + img.repo@ + "/manifests/"@
            + name,
        img.blob_at(name) == "https://"@ + img.registry@ + "/v2/"@ + img.repo@ + "/blobs/"@ + name,
{
}

/// The golden image of a recipe is a file of its own in the directory of
/// images, and a project that names no base gets the default one.
pub proof fn golden_images_are_named(dir: Seq<char>, hash: Seq<char>, base: Option<Seq<char>>)
    ensures
        image::image_of(dir, hash) == paths::joined(dir, hash + ".img"@),
        base is Some ==> image::base_of(base) == base->0,
        base is None ==> image::base_of(base) == "debian:bookworm"@,
{
}

/// The names of a relative path: none is empty, a dot or two dots, and none
/// holds a slash.
pub open spec fn are_names(names: Seq<Seq<u8>>) -> bool {
    forall|i: int|
        0 <= i < names.len() ==> (#[trigger] names[i]).len() > 0 && names[i] != seq![46u8]
            && names[i] != seq![46u8, 46u8] && !names[i].contains(47u8)
}

/// A path with such names is taken apart into them.
pub proof fn lemma_names_are_read(names: Seq<Seq<u8>>)
    requires
        names.len() > 0,
        are_names(names),
    ensures
        paths::route_of(seqs::join(names, seq![47u8])) == (paths::RouteModel {
            absolute: false,
            names,
        }),
{
    let path = seqs::join(names, seq![paths::SLASH]);
    assert forall|i: int| 0 <= i < names.len() implies !(#[trigger] names[i]).contains(
        paths::SLASH,
    ) by {}
    seqs::split_of_join(names, paths::SLASH);
    let pieces = seqs::split(path, paths::SLASH);
    assert(pieces == names);
    let rest = names.skip(1);
    assert forall|i: int| 0 <= i < rest.len() implies paths::is_name(#[trigger] rest[i]) by {
        assert(rest[i] == names[i + 1]);
    }
    let keep = |p: Seq<u8>| paths::is_name(p);
    assert forall|i: int| 0 <= i < rest.len() implies keep(#[trigger] rest[i]) by {
        assert(paths::is_name(rest[i]));
    }
    seqs::lemma_select_all(rest, keep);
    assert(paths::names_of(path) =~= names) by {
        assert(seq![names[0]] + rest =~= names);
    }
    lemma_join_first(names);
    assert(path[0] == names[0][0]);
    assert(names[0].contains(names[0][0]));
}

proof fn lemma_join_first(names: Seq<Seq<u8>>)
    requires
        names.len() > 0,
        names[0].len() > 0,
    ensures
        seqs::join(names, seq![47u8]).len() > 0,
        seqs::join(names, seq![47u8])[0] == names[0][0],
    decreases names.len(),
{
    if names.len() > 1 {
        let t = names.drop_last();
        lemma_join_first(t);
    }
}

/// An entry of a layer does what its name says: `.wh..wh..opq` empties its
/// directory, `.wh.` and a name removes the name from it, a device or a pipe
/// is left out, and everything else is unpacked where it says.
pub proof fn layers_are_applied(names: Seq<Seq<u8>>, last: Seq<char>, kind: image::EntryKind)
    requires
        names.len() > 0,
        are_names(names),
        names.last() == vstd::utf8::encode_utf8(last),
    ensures
        ({
            let path = seqs::join(names, seq![47u8]);
            let dir = seqs::join(names.drop_last(), seq![47u8]);
            let done = image::layer_decision(path, kind);
            if last == ".wh..wh..opq"@ {
                done == (image::LayerActionModel::Clear { dir })
            } else if ".wh."@.is_prefix_of(last) {
                done == (image::LayerActionModel::Remove { dir, name: last.skip(4) })
            } else if kind is Other {
                done == (image::LayerActionModel::Unpack { path })
            } else {
                done is Skip
            }
        }),
{
    reveal_strlit(".wh.");
    let path = seqs::join(names, seq![47u8]);
    lemma_names_are_read(names);
    vstd::utf8::encode_utf8_decode_utf8(last);
    vstd::utf8::encode_utf8_valid_utf8(last);
    assert(names[0] != seq![46u8]);
    let route = image::layer_route(path);
    assert(route.names == names);
    let n = names.len() as int;
    assert(names[n - 1] == names.last());
    assert(route.file_name() == Some(names.last()));
    assert(".wh."@.len() == 4);
}

/// An image has room for twice what it starts with and some more, and is no
/// larger than that asks for: at least eight gigabytes, and four more than
/// twice the files take otherwise.
pub proof fn images_are_sized(used: nat)
    ensures
        image::gigabytes(used) >= 8,
        image::gigabytes(used) * 1_000_000_000 > 2 * used,
        image::gigabytes(used) > 8 ==> (image::gigabytes(used) - 4) * 1_000_000_000 <= 2 * used < (
        image::gigabytes(used) - 3) * 1_000_000_000,
        2 * used >= 5_000_000_000 ==> image::gigabytes(used) > 8,
        used <= 2_000_000_000 ==> image::gigabytes(used) == 8,
{
}

/// The script gives the root to root, then each path that was found, and then
/// each recorded path to its recorded owner, one after the other.
pub proof fn owners_are_set(
    found: Seq<Seq<char>>,
    path: Seq<char>,
    owners: Seq<(Seq<char>, u64, u64)>,
    uid: u64,
    gid: u64,
)
    ensures
        ({
            let none = Seq::<(Seq<char>, u64, u64)>::empty();
            &&& image::ownership_text(Seq::<Seq<char>>::empty(), none)
                == "sif / uid 0\nsif / gid 0\n"@
            &&& image::ownership_text(found.push(path), none) == image::ownership_text(found, none)
                + "sif \"/"@ + path + "\" uid "@ + text::decimal(0) + "\nsif \"/"@ + path
                + "\" gid "@ + text::decimal(0) + "\n"@
            &&& image::ownership_text(found, owners.push((path, uid, gid)))
                == image::ownership_text(found, owners) + "sif \"/"@ + path + "\" uid "@
                + text::decimal(uid as nat) + "\nsif \"/"@ + path + "\" gid "@ + text::decimal(
                gid as nat,
            ) + "\n"@
        }),
{
    let none = Seq::<(Seq<char>, u64, u64)>::empty();
    let nothing = Seq::<Seq<char>>::empty();
    assert(image::sweep(nothing, none) =~= none);
    assert(image::ownership_text(nothing, none) =~= "sif / uid 0\nsif / gid 0\n"@);
    let more = image::sweep(found.push(path), none);
    assert(more.drop_last() =~= image::sweep(found, none));
    assert(more.last() == (path, 0u64, 0u64));
    assert(image::ownership_text(found.push(path), none) =~= image::ownership_text(found, none)
        + "sif \"/"@ + path + "\" uid "@ + text::decimal(0) + "\nsif \"/"@ + path + "\" gid "@
        + text::decimal(0) + "\n"@);
    let more = image::sweep(found, owners.push((path, uid, gid)));
    assert(more.drop_last() =~= image::sweep(found, owners));
    assert(more.last() == (path, uid, gid));
    assert(image::ownership_text(found, owners.push((path, uid, gid))) =~= image::ownership_text(
        found,
        owners,
    ) + "sif \"/"@ + path + "\" uid "@ + text::decimal(uid as nat) + "\nsif \"/"@ + path
        + "\" gid "@ + text::decimal(gid as nat) + "\n"@);
}

/// The golden image of a project is the file that the digest of its recipe
/// names, in the directory of the images.
pub proof fn golden_images_follow_the_recipe(
    cfg: config::MooToml,
    contents: Seq<Option<Vec<u8>>>,
    dir: Seq<char>,
)
    ensures
        image::golden_path(cfg, contents, dir) == paths::joined(
            dir,
            text::hex_of(digest::blake3_of(cfg.recipe_input(contents))) + ".img"@,
        ),
{
}

/// A path in a layer means the same with a leading `./`.
pub proof fn leading_dots_say_nothing(names: Seq<Seq<u8>>, kind: image::EntryKind)
    requires
        names.len() > 0,
        are_names(names),
    ensures
        image::layer_decision(seqs::join(seq![seq![46u8]] + names, seq![47u8]), kind)
            == image::layer_decision(seqs::join(names, seq![47u8]), kind),
{
    let dot = seq![46u8];
    let all = seq![dot] + names;
    let path = seqs::join(all, seq![47u8]);
    lemma_names_are_read(names);
    assert forall|i: int| 0 <= i < all.len() implies !(#[trigger] all[i]).contains(47u8) by {
        if i > 0 {
            assert(all[i] == names[i - 1]);
        }
    }
    seqs::split_of_join(all, 47u8);
    assert(all.skip(1) =~= names);
    let keep = |p: Seq<u8>| paths::is_name(p);
    assert forall|i: int| 0 <= i < names.len() implies keep(#[trigger] names[i]) by {
        assert(names[i].len() > 0);
    }
    seqs::lemma_select_all(names, keep);
    assert(all[0] == dot);
    assert(paths::names_of(path) =~= all);
    lemma_join_starts(all);
    assert(path[0] == 46u8);
    assert(names[0] != dot);
    assert(image::layer_route(path).names =~= names);
}

proof fn lemma_join_starts(parts: Seq<Seq<u8>>)
    requires
        parts.len() > 0,
        parts[0].len() > 0,
    ensures
        seqs::join(parts, seq![47u8]).len() > 0,
        seqs::join(parts, seq![47u8])[0] == parts[0][0],
    decreases parts.len(),
{
    if parts.len() > 1 {
        lemma_join_starts(parts.drop_last());
    }
}

/// The root, a path that ends in `..` and one that says nothing name no file,
/// so nothing is done for them.
pub proof fn nameless_paths_are_skipped(names: Seq<Seq<u8>>, kind: image::EntryKind)
    requires
        are_names(names),
    ensures
        image::layer_decision(seqs::join(names.push(seq![46u8, 46u8]), seq![47u8]), kind) is Skip,
        image::layer_decision(Seq::<u8>::empty(), kind) is Skip,
        image::layer_decision(seq![46u8], kind) is Skip,
{
    let up = seq![46u8, 46u8];
    let all = names.push(up);
    assert forall|i: int| 0 <= i < all.len() implies !(#[trigger] all[i]).contains(47u8) by {
        if i < names.len() {
            assert(all[i] == names[i]);
        }
    }
    seqs::split_of_join(all, 47u8);
    let rest = all.skip(1);
    let keep = |p: Seq<u8>| paths::is_name(p);
    assert forall|i: int| 0 <= i < rest.len() implies keep(#[trigger] rest[i]) by {
        assert(rest[i] == all[i + 1]);
        if i + 1 < names.len() {
            assert(names[i + 1].len() > 0);
        } else {
            assert(up.len() == 2);
        }
    }
    seqs::lemma_select_all(rest, keep);
    assert(all[0].len() > 0) by {
        if names.len() > 0 {
            assert(all[0] == names[0]);
        }
    }
    let path = seqs::join(all, seq![47u8]);
    assert(seq![all[0]] + rest =~= all);
    assert(paths::names_of(path) == all);
    assert(all.last() == up);
    assert(all[0] != seq![46u8]) by {
        if names.len() > 0 {
            assert(all[0] == names[0]);
        } else {
            assert(all[0].len() == 2);
        }
    }
    let none = Seq::<u8>::empty();
    let nothing = Seq::<Seq<u8>>::empty();
    assert(seqs::split(none, 47u8) =~= seq![none]);
    assert(seqs::split(none, 47u8).skip(1) =~= nothing);
    assert(paths::names_of(none) =~= nothing);
    let dot = seq![46u8];
    seqs::lemma_split_append(none, 47u8, dot);
    assert(none + dot =~= dot);
    assert(seqs::split(dot, 47u8) =~= seq![dot]);
    assert(seqs::split(dot, 47u8).skip(1) =~= nothing);
    assert(seqs::select(nothing, keep) =~= nothing);
    assert(paths::names_of(dot) =~= seq![dot]);
    assert(image::layer_route(dot).names =~= nothing);
}

/// A tool is looked for in three places, and the first that has it is used.
pub proof fn tools_are_looked_for<F: Fn(String) -> bool>(there: F, name: Seq<char>, path: Seq<char>)
    ensures
        image::found_at(there, name, path) ==> {
            ||| path == "/opt/homebrew/opt/e2fsprogs/sbin/"@ + name
            ||| path == "/opt/homebrew/sbin/"@ + name && image::says(
                there,
                "/opt/homebrew/opt/e2fsprogs/sbin/"@ + name,
                false,
            )
            ||| path == "/usr/local/sbin/"@ + name && image::says(
                there,
                "/opt/homebrew/opt/e2fsprogs/sbin/"@ + name,
                false,
            ) && image::says(there, "/opt/homebrew/sbin/"@ + name, false)
        },
        image::found_at(there, name, path) ==> image::says(there, path, true),
        image::missing(there, name) ==> image::says(
            there,
            "/opt/homebrew/opt/e2fsprogs/sbin/"@ + name,
            false,
        ) && image::says(there, "/opt/homebrew/sbin/"@ + name, false) && image::says(
            there,
            "/usr/local/sbin/"@ + name,
            false,
        ),
{
    let places = image::tool_places(name);
    assert(places.len() == 3);
    assert(places[0] == "/opt/homebrew/opt/e2fsprogs/sbin/"@ + name);
    assert(places[1] == "/opt/homebrew/sbin/"@ + name);
    assert(places[2] == "/usr/local/sbin/"@ + name);
}

/// A reference with a digest asks for the digest, from where the reference
/// without it asks.
pub proof fn digests_are_asked_for(name: Seq<char>, digest: Seq<char>)
    requires
        !name.contains('@'),
    ensures
        ({
            let pinned = image::ref_of(name + seq!['@'] + digest);
            let plain = image::ref_of(name);
            &&& pinned.tag == digest
            &&& pinned.registry == plain.registry
            &&& pinned.repo == plain.repo
        }),
{
    let s = name + seq!['@'] + digest;
    let n = name.len() as int;
    assert(s[n] == '@');
    assert forall|j: int| 0 <= j < n implies s[j] != '@' by {
        assert(s[j] == name[j]);
        assert(name.contains(name[j]));
    }
    seqs::lemma_index_of(s, '@', n);
    assert(s.take(n) =~= name);
    assert(s.skip(n + 1) =~= digest);
    assert(s.contains('@'));
    assert forall|j: int| 0 <= j < n implies name[j] != '@' by {
        assert(name.contains(name[j]));
    }
    seqs::lemma_index_of(name, '@', n);
    assert(name.take(n) =~= name);
}

/// A golden image is built exactly where it is not there, from the base that
/// the project names; either way it is the one of the project's recipe.
pub proof fn golden_images_are_built_once<F: Fn(String) -> bool>(
    cfg: config::MooToml,
    contents: Seq<Option<Vec<u8>>>,
    dir: Seq<char>,
    there: F,
    built: bool,
    r: image::Golden,
)
    requires
        image::ensured(cfg, contents, dir, there, r),
        forall|p: String, b: bool| #[trigger] call_ensures(there, (p,), b) ==> b == built,
    ensures
        r is Ready <==> built,
        ({
            let path = paths::joined(
                dir,
                text::hex_of(digest::blake3_of(cfg.recipe_input(contents))) + ".img"@,
            );
            match r {
                image::Golden::Ready { path: p } => p@ == path,
                image::Golden::Build { path: p, base_ref } => {
                    &&& p@ == path
                    &&& cfg.project.base is Some ==> base_ref@ == cfg.project.base->0@
                    &&& cfg.project.base is None ==> base_ref@ == "debian:bookworm"@
                },
            }
        }),
{
}

/// A token is asked for where a challenge says to, for the service and the
/// scope that it names; a challenge without a realm says nothing.
pub proof fn challenges_are_answered(
    realm: Seq<char>,
    service: Seq<char>,
    scope: Seq<char>,
    r: Option<image::TokenRequest>,
)
    requires
        is_value(realm),
        is_value(service),
        is_value(scope),
        image::answers_challenge(
            "Bearer realm=\""@ + realm + "\",service=\""@ + service + "\",scope=\""@ + scope
                + "\""@,
            r,
        ),
    ensures
        r is Some,
        r->0.url@ == realm,
        text::opt_text(r->0.service) == Some(service),
        text::opt_text(r->0.scope) == Some(scope),
{
    challenges_are_read(realm, service, scope);
}

/// A request that was denied is answered with a token and sent once more, and
/// no more than once; one that was delivered or failed is done with.
pub proof fn denied_requests_are_repeated_once(tries: nat, challenge: String)
    ensures
        image::following(0, image::Reply::Denied(Some(challenge)))
            == (image::ClientStep::Authenticate { challenge, retry: true }),
        tries > 0 ==> image::following(tries, image::Reply::Denied(Some(challenge)))
            == (image::ClientStep::Authenticate { challenge, retry: false }),
        image::following(tries, image::Reply::Denied(None)) is NoChallenge,
        image::following(tries, image::Reply::Delivered) is Deliver,
        image::following(tries, image::Reply::Failed) is RequestFailed,
{
}

/// A manifest that lists no builds is an image of its own; of one that does,
/// the first build for the guest is taken.
pub proof fn manifests_are_told_apart(body: Seq<u8>, r: image::Manifest, n: nat)
    requires
        image::inspected(body, r),
    ensures
        r is Image <==> !json::json_has_of(body, "/manifests"@),
        r is Index ==> json::json_count_of(body, "/manifests"@) is Some,
        json::json_has_of(body, "/manifests"@) && json::json_count_of(body, "/manifests"@) == Some(n)
            ==> r is Index && text::opt_text(r->Index_0) == image::guest_build(
            image::listed_builds(body, n),
        ),
        json::json_has_of(body, "/manifests"@) && json::json_count_of(
            body,
            "/manifests"@,
        ) is None ==> r is Broken,
{
}

/// Every layer is fetched in its turn, from the image's own repository by its
/// digest, until one cannot be used or none is left.
pub proof fn layers_are_fetched_in_turn(
    img: image::ImageRef,
    base_ref: Seq<char>,
    layers: Seq<image::Layer>,
    applied: int,
    r: image::LayerStep,
)
    requires
        0 <= applied,
        image::follows_layers(img, base_ref, layers, applied, r),
    ensures
        r is Finished <==> applied >= layers.len(),
        r is Fail <==> applied < layers.len() && (!text::holds(layers[applied].media@, "tar"@)
            || text::holds(layers[applied].media@, "zstd"@)),
        r is Fetch ==> r->Fetch_0@ == "https://"@ + img.registry@ + "/v2/"@ + img.repo@
            + "/blobs/"@ + layers[applied].digest@,
{
}

/// A path from the root is decided like a relative one.
pub proof fn absolute_layers_are_applied(names: Seq<Seq<u8>>, last: Seq<char>, kind: image::EntryKind)
    requires
        names.len() > 0,
        are_names(names),
        names.last() == vstd::utf8::encode_utf8(last),
    ensures
        ({
            let path = seq![47u8] + seqs::join(names, seq![47u8]);
            let dir = seq![47u8] + seqs::join(names.drop_last(), seq![47u8]);
            let done = image::layer_decision(path, kind);
            if last == ".wh..wh..opq"@ {
                done == (image::LayerActionModel::Clear { dir })
            } else if ".wh."@.is_prefix_of(last) {
                done == (image::LayerActionModel::Remove { dir, name: last.skip(4) })
            } else if kind is Other {
                done == (image::LayerActionModel::Unpack { path })
            } else {
                done is Skip
            }
        }),
{
    reveal_strlit(".wh.");
    trees::lemma_absolute_names(names);
    vstd::utf8::encode_utf8_decode_utf8(last);
    vstd::utf8::encode_utf8_valid_utf8(last);
    let n = names.len() as int;
    assert(names[n - 1] == names.last());
    assert(".wh."@.len() == 4);
}

/// A name that is no text is left out.
pub proof fn unreadable_names_are_skipped(names: Seq<Seq<u8>>, kind: image::EntryKind)
    requires
        names.len() > 0,
        are_names(names),
        !vstd::utf8::valid_utf8(names.last()),
    ensures
        image::layer_decision(seqs::join(names, seq![47u8]), kind) is Skip,
{
    lemma_names_are_read(names);
    let n = names.len() as int;
    assert(names[n - 1] == names.last());
    assert(names[0] != seq![46u8]);
}

/// Every layer of a manifest is listed, in order, with the digest, the type
/// and the size that stand at its place.
pub proof fn every_layer_is_listed(body: Seq<u8>, n: nat, i: int)
    requires
        json::json_count_of(body, "/layers"@) == Some(n),
        0 <= i < n,
    ensures
        image::listed_layers(body) is Some,
        image::listed_layers(body)->0.len() == n,
        ({
            let layer = image::listed_layers(body)->0[i];
            let at = "/layers/"@ + text::decimal(i as nat);
            let digest = json::json_text_of(body, at + "/digest"@);
            let media = json::json_text_of(body, at + "/mediaType"@);
            let size = json::json_integer_of(body, at + "/size"@);
            &&& digest is Some ==> layer.0 == digest->0
            &&& media is Some ==> layer.1 == media->0
            &&& size is Some ==> layer.2 == size->0
        }),
{
}

/// An owner is set for every entry that was unpacked, with the numbers that
/// the layer gives, and for no other.
pub proof fn unpacked_entries_have_owners(
    owners: Seq<(Seq<char>, u64, u64)>,
    path: Seq<char>,
    uid: u64,
    gid: u64,
)
    ensures
        image::owners_after(owners, true, path, uid, gid).len() == owners.len() + 1,
        image::owners_after(owners, true, path, uid, gid).last() == (path, uid, gid),
        image::owners_after(owners, true, path, uid, gid).drop_last() == owners,
        image::owners_after(owners, false, path, uid, gid) == owners,
{
    assert(owners.push((path, uid, gid)).drop_last() =~= owners);
}

/// The file system is built from the directory into the image, of the size
/// that was asked for.
pub proof fn file_systems_are_built(rootfs: Seq<char>, out: Seq<char>, gigabytes: nat)
    ensures
        ({
            let words = image::mkfs_words(rootfs, out, gigabytes);
            let n = words.len() as int;
            &&& words[n - 2] == out
            &&& words[n - 1] == text::decimal(gigabytes) + "G"@
            &&& exists|i: int|
                0 <= i < n - 3 && #[trigger] words[i] == "-d"@ && words[i + 1] == rootfs
            &&& exists|i: int|
                0 <= i < n - 3 && #[trigger] words[i] == "-L"@ && words[i + 1] == "mooroot"@
            &&& words.contains("-F"@)
            &&& words.contains("-q"@)
        }),
{
    let words = image::mkfs_words(rootfs, out, gigabytes);
    assert(words.len() == 8);
    assert(words[0] == "-q"@);
    assert(words[1] == "-F"@);
    assert(words[2] == "-d"@ && words[3] == rootfs);
    assert(words[4] == "-L"@ && words[5] == "mooroot"@);
}

} // verus!
