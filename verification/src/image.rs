//! Golden base images: fetched from a registry, built once per recipe.
use crate::bytes;
use crate::config;
use crate::digest;
use crate::json;
use crate::paths;
use crate::seqs;
use crate::text;
use vstd::prelude::*;

verus! {

/// The base of a project that names none.
pub const DEFAULT_BASE: &'static str = "debian:bookworm";

/// What is asked for where a manifest is fetched.
pub const MANIFEST_ACCEPT: &'static str =
    "application/vnd.oci.image.index.v1+json, application/vnd.docker.distribution.manifest.list.v2+json, application/vnd.oci.image.manifest.v1+json, application/vnd.docker.distribution.manifest.v2+json";

/// What is asked for where a layer is fetched.
pub const LAYER_ACCEPT: &'static str = "application/octet-stream";

/// Where the golden image of a recipe is.
pub open spec fn image_of(images_dir: Seq<char>, recipe_hash: Seq<char>) -> Seq<char> {
    paths::joined(images_dir, recipe_hash + ".img"@)
}

pub fn image_path(images_dir: &str, recipe_hash: &str) -> (r: String)
    ensures
        r@ == image_of(images_dir@, recipe_hash@),
{
    let mut name = recipe_hash.to_owned();
    name.append(".img");
    paths::join(images_dir, name.as_str())
}

/// The base reference that a project builds from.
pub open spec fn base_of(base: Option<Seq<char>>) -> Seq<char> {
    match base {
        Some(b) => b,
        None => DEFAULT_BASE@,
    }
}

pub fn base_reference(base: &Option<String>) -> (r: String)
    ensures
        r@ == base_of(text::opt_text(*base)),
{
    match base {
        Some(b) => b.clone(),
        None => DEFAULT_BASE.to_owned(),
    }
}

/// A golden image that a project asks for.
pub enum Golden {
    /// The image was built before.
    Ready { path: String },
    /// The image is to be built from the base.
    Build { path: String, base_ref: String },
}

/// Where the golden image of a project is, given what its lockfiles hold.
pub open spec fn golden_path(
    cfg: config::MooToml,
    contents: Seq<Option<Vec<u8>>>,
    images_dir: Seq<char>,
) -> Seq<char> {
    image_of(images_dir, digest::hex_digest(cfg.recipe_input(contents)))
}

/// The image is the one of the recipe, and it is built exactly where it is
/// not there.
pub open spec fn ensured<F: Fn(String) -> bool>(
    cfg: config::MooToml,
    contents: Seq<Option<Vec<u8>>>,
    images_dir: Seq<char>,
    there: F,
    r: Golden,
) -> bool {
    match r {
        Golden::Ready { path } => {
            &&& path@ == golden_path(cfg, contents, images_dir)
            &&& says(there, path@, true)
        },
        Golden::Build { path, base_ref } => {
            &&& path@ == golden_path(cfg, contents, images_dir)
            &&& says(there, path@, false)
            &&& base_ref@ == base_of(text::opt_text(cfg.project.base))
        },
    }
}

/// The golden image of a project: the one that was built for its recipe, or
/// the order to build it on first use.
pub fn ensure<F: Fn(String) -> bool>(
    cfg: &config::MooToml,
    contents: &[Option<Vec<u8>>],
    images_dir: &str,
    there: &F,
) -> (r: Golden)
    requires
        cfg.ram_fits(),
        contents@.len() == cfg.recipe.lockfiles@.len(),
        forall|p: String| #[trigger] call_requires(*there, (p,)),
    ensures
        ensured(*cfg, contents@, images_dir@, *there, r),
{
    let hash = cfg.recipe_hash(contents);
    let path = image_path(images_dir, hash.as_str());
    let asked = path.clone();
    let built = there(asked);
    assert(call_ensures(*there, (asked,), built));
    assert(says(*there, path@, built));
    if built {
        Golden::Ready { path }
    } else {
        Golden::Build { path, base_ref: base_reference(&cfg.project.base) }
    }
}

/// What an image reference names.
pub struct ImageRef {
    pub registry: String,
    pub repo: String,
    pub tag: String,
}

/// What the reference names: the registry, the repository and the tag.
pub struct ImageRefModel {
    pub registry: Seq<char>,
    pub repo: Seq<char>,
    pub tag: Seq<char>,
}

impl View for ImageRef {
    type V = ImageRefModel;

    open spec fn view(&self) -> ImageRefModel {
        ImageRefModel { registry: self.registry@, repo: self.repo@, tag: self.tag@ }
    }
}

/// Where the colon before the tag is; -1 where there is no tag. A colon
/// before the last slash belongs to the port of a host.
pub open spec fn tag_colon(s: Seq<char>) -> int {
    let i = seqs::last_index_of(s, ':');
    if i >= 0 && !s.skip(i + 1).contains('/') {
        i
    } else {
        -1
    }
}

/// The reference without its tag.
pub open spec fn name_part(s: Seq<char>) -> Seq<char> {
    if tag_colon(s) >= 0 {
        s.take(tag_colon(s))
    } else {
        s
    }
}

/// The tag; the latest where none is given.
pub open spec fn tag_part(s: Seq<char>) -> Seq<char> {
    if tag_colon(s) >= 0 {
        s.skip(tag_colon(s) + 1)
    } else {
        "latest"@
    }
}

/// The name starts with a host: a first part before a slash that looks like one.
pub open spec fn names_host(name: Seq<char>) -> bool {
    let first = name.take(seqs::index_of(name, '/'));
    name.contains('/') && (first.contains('.') || first.contains(':') || first == "localhost"@)
}

/// The reference without its digest.
pub open spec fn before_digest(s: Seq<char>) -> Seq<char> {
    s.take(seqs::index_of(s, '@'))
}

/// What the manifest is asked for by: the digest where one is given, else the tag.
pub open spec fn version_part(s: Seq<char>) -> Seq<char> {
    if s.contains('@') {
        s.skip(seqs::index_of(s, '@') + 1)
    } else {
        tag_part(s)
    }
}

/// What a reference names.
pub open spec fn ref_of(s: Seq<char>) -> ImageRefModel {
    let name = name_part(before_digest(s));
    let slash = seqs::index_of(name, '/');
    if names_host(name) {
        ImageRefModel {
            registry: name.take(slash),
            repo: name.skip(slash + 1),
            tag: version_part(s),
        }
    } else {
        ImageRefModel {
            registry: "registry-1.docker.io"@,
            repo: if name.contains('/') {
                name
            } else {
                "library/"@ + name
            },
            tag: version_part(s),
        }
    }
}

/// The name and the tag of a reference.
fn split_tag(s: &str) -> (r: (String, String))
    ensures
        r.0@ == name_part(s@),
        r.1@ == tag_part(s@),
{
    let cs = text::chars_of(s);
    let n = cs.len();
    if let Some(i) = text::last_position(&cs, ':') {
        let tag = text::text_of(&cs, i + 1, n);
        assert(tag@ =~= s@.skip(i as int + 1));
        if !text::has_char(tag.as_str(), '/') {
            let name = text::text_of(&cs, 0, i);
            assert(name@ =~= s@.take(i as int));
            return (name, tag);
        }
    }
    (s.to_owned(), "latest".to_owned())
}

fn first_part(name: &str) -> (r: String)
    ensures
        r@ == name@.take(seqs::index_of(name@, '/')),
{
    let cs = text::chars_of(name);
    let i = text::position(&cs, '/');
    let r = text::text_of(&cs, 0, i);
    assert(r@ =~= name@.take(i as int));
    r
}

fn has_host(name: &str) -> (r: bool)
    ensures
        r == names_host(name@),
{
    let first = first_part(name);
    text::has_char(name, '/') && (text::has_char(first.as_str(), '.') || text::has_char(
        first.as_str(),
        ':',
    ) || text::same(first.as_str(), "localhost"))
}

/// Takes an image reference apart.
pub fn parse_ref(s: &str) -> (r: ImageRef)
    ensures
        r@ == ref_of(s@),
{
    let cs = text::chars_of(s);
    let at = text::position(&cs, '@');
    let whole = text::text_of(&cs, 0, at);
    assert(whole@ =~= before_digest(s@));
    let (name, plain_tag) = split_tag(whole.as_str());
    proof {
        seqs::lemma_index_of_bounds(s@, '@');
    }
    let tag = if at < cs.len() {
        let digest = text::text_of(&cs, at + 1, cs.len());
        assert(digest@ =~= s@.skip(at as int + 1));
        digest
    } else {
        assert(whole@ =~= s@);
        plain_tag
    };
    let n = name.as_str();
    if has_host(n) {
        let cs = text::chars_of(n);
        let i = text::position(&cs, '/');
        proof {
            seqs::lemma_index_of_bounds(name@, '/');
        }
        let registry = text::text_of(&cs, 0, i);
        let repo = text::text_of(&cs, i + 1, cs.len());
        assert(registry@ =~= name@.take(i as int));
        assert(repo@ =~= name@.skip(i as int + 1));
        ImageRef { registry, repo, tag }
    } else if text::has_char(n, '/') {
        ImageRef { registry: "registry-1.docker.io".to_owned(), repo: name, tag }
    } else {
        let mut repo = "library/".to_owned();
        repo.append(n);
        ImageRef { registry: "registry-1.docker.io".to_owned(), repo, tag }
    }
}

/// A reference by digest asks for exactly that digest, in the repository
/// that the rest of it names.
pub proof fn digests_are_asked_for(rest: Seq<char>, digest: Seq<char>)
    requires
        !rest.contains('@'),
    ensures
        ref_of(rest + seq!['@'] + digest).tag == digest,
        ref_of(rest + seq!['@'] + digest).registry == ref_of(rest).registry,
        ref_of(rest + seq!['@'] + digest).repo == ref_of(rest).repo,
{
    let s = rest + seq!['@'] + digest;
    let n = rest.len() as int;
    assert(s[n] == '@');
    assert forall|j: int| 0 <= j < n implies s[j] != '@' by {
        assert(rest.contains(rest[j]));
    }
    seqs::lemma_index_of(s, '@', n);
    assert forall|j: int| 0 <= j < n implies rest[j] != '@' by {
        assert(rest.contains(rest[j]));
    }
    seqs::lemma_index_of(rest, '@', n);
    assert(s.take(n) =~= rest);
    assert(rest.take(n) =~= rest);
    assert(s.skip(n + 1) =~= digest);
}

impl ImageRef {
    /// Where the manifest with the tag or the digest is.
    pub open spec fn manifest_at(self, reference: Seq<char>) -> Seq<char> {
        "https://"@ + self.registry@ + "/v2/"@ + self.repo@ + "/manifests/"@ + reference
    }

    /// Where the layer with the digest is.
    pub open spec fn blob_at(self, digest: Seq<char>) -> Seq<char> {
        "https://"@ + self.registry@ + "/v2/"@ + self.repo@ + "/blobs/"@ + digest
    }

    pub fn manifest_url(&self, reference: &str) -> (r: String)
        ensures
            r@ == self.manifest_at(reference@),
    {
        let mut s = text::concat3("https://", self.registry.as_str(), "/v2/");
        s.append(self.repo.as_str());
        s.append("/manifests/");
        s.append(reference);
        s
    }

    pub fn blob_url(&self, digest: &str) -> (r: String)
        ensures
            r@ == self.blob_at(digest@),
    {
        let mut s = text::concat3("https://", self.registry.as_str(), "/v2/");
        s.append(self.repo.as_str());
        s.append("/blobs/");
        s.append(digest);
        s
    }
}

/// One field of an authentication challenge: a key and its value, the white
/// space around both and the quotes around the value left out.
pub open spec fn challenge_field(part: Seq<char>) -> Option<(Seq<char>, Seq<char>)> {
    let i = seqs::index_of(part, '=');
    if i >= part.len() {
        None
    } else {
        Some(
            (
                text::trimmed(part.take(i)),
                text::stripped(text::trimmed(part.skip(i + 1)), '"'),
            ),
        )
    }
}

/// The value of the last field with the key.
pub open spec fn field_among(parts: Seq<Seq<char>>, key: Seq<char>) -> Option<Seq<char>>
    decreases parts.len(),
{
    if parts.len() == 0 {
        None
    } else {
        match challenge_field(parts.last()) {
            Some((k, v)) if k == key => Some(v),
            _ => field_among(parts.drop_last(), key),
        }
    }
}

/// The value of a key in `Bearer realm="…",service="…",scope="…"`.
pub open spec fn field_of(challenge: Seq<char>, key: Seq<char>) -> Option<Seq<char>> {
    field_among(seqs::split(text::without_prefixes(challenge, "Bearer "@), ','), key)
}

fn read_field(part: &str) -> (r: Option<(String, String)>)
    ensures
        match r {
            Some((k, v)) => challenge_field(part@) == Some((k@, v@)),
            None => challenge_field(part@) is None,
        },
{
    let cs = text::chars_of(part);
    let i = text::position(&cs, '=');
    if i == cs.len() {
        return None;
    }
    let k = text::text_of(&cs, 0, i);
    let v = text::text_of(&cs, i + 1, cs.len());
    assert(k@ =~= part@.take(i as int));
    assert(v@ =~= part@.skip(i as int + 1));
    Some((text::trim(k.as_str()), text::strip(text::trim(v.as_str()).as_str(), '"')))
}

pub fn challenge_value(challenge: &str, key: &str) -> (r: Option<String>)
    ensures
        text::opt_text(r) == field_of(challenge@, key@),
{
    proof {
        reveal_strlit("Bearer ");
    }
    let rest = text::strip_prefixes(challenge, "Bearer ");
    let parts = text::split_on(rest.as_str(), ',');
    let ghost all = seqs::split(rest@, ',');
    let mut found: Option<String> = None;
    for i in 0..parts.len()
        invariant
            text::texts(parts@) == all,
            text::opt_text(found) == field_among(all.take(i as int), key@),
    {
        let ghost t = all.take(i as int + 1);
        assert(t.drop_last() =~= all.take(i as int));
        assert(t.last() == parts@[i as int]@);
        if let Some((k, v)) = read_field(parts[i].as_str()) {
            if text::same(k.as_str(), key) {
                found = Some(v);
            }
        }
    }
    assert(all.take(all.len() as int) =~= all);
    found
}

/// A request for a pull token.
pub struct TokenRequest {
    pub url: String,
    pub service: Option<String>,
    pub scope: Option<String>,
}

/// The message where a challenge does not say whom to ask.
pub const NO_REALM: &'static str = "auth challenge missing realm";

/// The message where the reply to a token request holds no token.
pub const NO_TOKEN: &'static str = "token response had no token";

/// The request asks whom the challenge names, for what it names.
pub open spec fn answers_challenge(challenge: Seq<char>, r: Option<TokenRequest>) -> bool {
    match field_of(challenge, "realm"@) {
        None => r is None,
        Some(url) => {
            &&& r is Some
            &&& r->0.url@ == url
            &&& text::opt_text(r->0.service) == field_of(challenge, "service"@)
            &&& text::opt_text(r->0.scope) == field_of(challenge, "scope"@)
        },
    }
}

/// Whom the challenge says to ask for a token, and for what; nothing where
/// it names no realm.
pub fn token_request(challenge: &str) -> (r: Option<TokenRequest>)
    ensures
        answers_challenge(challenge@, r),
{
    match challenge_value(challenge, "realm") {
        None => None,
        Some(url) => Some(
            TokenRequest {
                url,
                service: challenge_value(challenge, "service"),
                scope: challenge_value(challenge, "scope"),
            },
        ),
    }
}

/// The token in a reply: the string at `token`, or where nothing is there
/// the one at `access_token`.
pub open spec fn token_in(
    has_token: bool,
    token: Option<Seq<char>>,
    access_token: Option<Seq<char>>,
) -> Option<Seq<char>> {
    if has_token {
        token
    } else {
        access_token
    }
}

/// Which of the two is the token.
pub fn pick_token(has_token: bool, token: Option<String>, access_token: Option<String>) -> (r: Option<
    String,
>)
    ensures
        text::opt_text(r) == token_in(has_token, text::opt_text(token), text::opt_text(access_token)),
{
    if has_token {
        token
    } else {
        access_token
    }
}

/// The pull token in the reply to a token request.
pub fn anonymous_token(body: &[u8]) -> (r: Option<String>)
    ensures
        text::opt_text(r) == token_in(
            json::json_has_of(body@, "/token"@),
            json::json_text_of(body@, "/token"@),
            json::json_text_of(body@, "/access_token"@),
        ),
{
    pick_token(
        json::json_has(body, "/token"),
        json::json_text(body, "/token"),
        json::json_text(body, "/access_token"),
    )
}

/// The header that carries a token.
pub fn authorization(token: &str) -> (r: String)
    ensures
        r@ == "Bearer "@ + token@,
{
    let mut s = "Bearer ".to_owned();
    s.append(token);
    s
}

/// What became of a request to the registry.
pub enum Reply {
    Delivered,
    /// Access was denied, with this challenge if there was one.
    Denied(Option<String>),
    Failed,
}

/// What to do after a reply.
pub enum ClientStep {
    /// Hand the reply to the caller.
    Deliver,
    /// Fetch a token for the challenge; then ask again if `retry`, else give up.
    Authenticate { challenge: String, retry: bool },
    /// Fail: the registry gave no challenge.
    NoChallenge,
    /// Fail: the request did not get through.
    RequestFailed,
}

/// How often a request is sent.
pub const REQUEST_TRIES: u32 = 2;

/// What follows a reply.
pub open spec fn following(tries: nat, reply: Reply) -> ClientStep {
    match reply {
        Reply::Delivered => ClientStep::Deliver,
        Reply::Failed => ClientStep::RequestFailed,
        Reply::Denied(None) => ClientStep::NoChallenge,
        Reply::Denied(Some(challenge)) => ClientStep::Authenticate {
            challenge,
            retry: tries + 1 < REQUEST_TRIES,
        },
    }
}

/// What follows the `tries`-th reply, counted from zero: one that was denied
/// is sent once more with a token.
pub fn after_reply(tries: u32, reply: Reply) -> (r: ClientStep)
    ensures
        r == following(tries as nat, reply),
{
    match reply {
        Reply::Delivered => ClientStep::Deliver,
        Reply::Failed => ClientStep::RequestFailed,
        Reply::Denied(None) => ClientStep::NoChallenge,
        Reply::Denied(Some(challenge)) => ClientStep::Authenticate {
            challenge,
            retry: tries < REQUEST_TRIES - 1,
        },
    }
}

/// The message where the registry goes on denying access.
pub fn authentication_failure(url: &str) -> (r: String)
    ensures
        r@ == "registry authentication failed for "@ + url@,
{
    let mut s = "registry authentication failed for ".to_owned();
    s.append(url);
    s
}

/// One build in an index of builds for several platforms.
pub struct PlatformRow {
    pub os: Option<String>,
    pub architecture: Option<String>,
    pub digest: Option<String>,
}

/// What a row says: the system, the architecture, and the digest.
pub open spec fn row_model(row: PlatformRow) -> (
    Option<Seq<char>>,
    Option<Seq<char>>,
    Option<Seq<char>>,
) {
    (text::opt_text(row.os), text::opt_text(row.architecture), text::opt_text(row.digest))
}

/// What the rows say.
pub open spec fn row_models(rows: Seq<PlatformRow>) -> Seq<
    (Option<Seq<char>>, Option<Seq<char>>, Option<Seq<char>>),
> {
    rows.map_values(|row: PlatformRow| row_model(row))
}

/// The digest of the first build for the guest's platform.
pub open spec fn guest_build(
    rows: Seq<(Option<Seq<char>>, Option<Seq<char>>, Option<Seq<char>>)>,
) -> Option<Seq<char>>
    decreases rows.len(),
{
    if rows.len() == 0 {
        None
    } else if rows[0].0 == Some("linux"@) && rows[0].1 == Some("arm64"@) {
        rows[0].2
    } else {
        guest_build(rows.skip(1))
    }
}

fn is_text(o: &Option<String>, s: &str) -> (r: bool)
    ensures
        r == (text::opt_text(*o) == Some(s@)),
{
    match o {
        Some(t) => text::same(t.as_str(), s),
        None => false,
    }
}

/// The build for the guest's platform, linux on arm64.
pub fn select_platform(rows: &[PlatformRow]) -> (r: Option<String>)
    ensures
        text::opt_text(r) == guest_build(row_models(rows@)),
{
    let n = rows.len();
    let ghost all = row_models(rows@);
    let mut i: usize = 0;
    assert(all.skip(0) =~= all);
    while i < n
        invariant
            n == rows@.len(),
            i <= n,
            all == row_models(rows@),
            guest_build(all) == guest_build(all.skip(i as int)),
        decreases n - i,
    {
        let ghost t = all.skip(i as int);
        assert(t[0] == row_model(rows@[i as int]));
        assert(t.skip(1) =~= all.skip(i as int + 1));
        if is_text(&rows[i].os, "linux") && is_text(&rows[i].architecture, "arm64") {
            return text::copy_opt(&rows[i].digest);
        }
        i = i + 1;
    }
    None
}

/// A place below an element of a list in a document.
pub open spec fn element_pointer(list: Seq<char>, i: nat, rest: Seq<char>) -> Seq<char> {
    list + text::decimal(i) + rest
}

fn element(list: &str, i: usize, rest: &str) -> (r: String)
    ensures
        r@ == element_pointer(list@, i as nat, rest@),
{
    text::concat3(list, text::format_decimal(i as u64).as_str(), rest)
}

/// The `i`-th build that an index lists.
pub open spec fn listed_build(body: Seq<u8>, i: nat) -> (
    Option<Seq<char>>,
    Option<Seq<char>>,
    Option<Seq<char>>,
) {
    (
        json::json_text_of(body, element_pointer("/manifests/"@, i, "/platform/os"@)),
        json::json_text_of(body, element_pointer("/manifests/"@, i, "/platform/architecture"@)),
        json::json_text_of(body, element_pointer("/manifests/"@, i, "/digest"@)),
    )
}

/// The builds that an index lists.
pub open spec fn listed_builds(body: Seq<u8>, n: nat) -> Seq<
    (Option<Seq<char>>, Option<Seq<char>>, Option<Seq<char>>),
> {
    Seq::new(n, |i: int| listed_build(body, i as nat))
}

fn platform_rows(body: &[u8], n: usize) -> (r: Vec<PlatformRow>)
    ensures
        row_models(r@) == listed_builds(body@, n as nat),
{
    let mut rows: Vec<PlatformRow> = Vec::new();
    for i in 0..n
        invariant
            rows@.len() == i,
            forall|j: int|
                0 <= j < i ==> row_model(#[trigger] rows@[j]) == listed_build(body@, j as nat),
    {
        let os = json::json_text(body, element("/manifests/", i, "/platform/os").as_str());
        let architecture = json::json_text(
            body,
            element("/manifests/", i, "/platform/architecture").as_str(),
        );
        let digest = json::json_text(body, element("/manifests/", i, "/digest").as_str());
        rows.push(PlatformRow { os, architecture, digest });
    }
    assert(row_models(rows@) =~= listed_builds(body@, n as nat));
    rows
}

/// The digest of the guest's build in an index.
pub fn platform_digest(body: &[u8]) -> (r: Option<String>)
    requires
        json::json_count_of(body@, "/manifests"@) is Some,
    ensures
        text::opt_text(r) == guest_build(
            listed_builds(body@, json::json_count_of(body@, "/manifests"@)->0),
        ),
{
    match json::json_count(body, "/manifests") {
        Some(n) => select_platform(&platform_rows(body, n)),
        None => None,
    }
}

/// What a manifest turns out to be.
pub enum Manifest {
    /// An image for one platform.
    Image,
    /// An index; the guest's build has this digest, if there is one.
    Index(Option<String>),
    /// An index whose builds are no list.
    Broken,
}

/// A manifest is an index where it lists builds.
pub open spec fn inspected(body: Seq<u8>, r: Manifest) -> bool {
    if !json::json_has_of(body, "/manifests"@) {
        r is Image
    } else {
        match json::json_count_of(body, "/manifests"@) {
            None => r is Broken,
            Some(n) => r is Index && text::opt_text(r->Index_0) == guest_build(
                listed_builds(body, n),
            ),
        }
    }
}

/// What the manifest at a tag is.
pub fn inspect_manifest(body: &[u8]) -> (r: Manifest)
    ensures
        inspected(body@, r),
{
    if !json::json_has(body, "/manifests") {
        return Manifest::Image;
    }
    match json::json_count(body, "/manifests") {
        None => Manifest::Broken,
        Some(_) => Manifest::Index(platform_digest(body)),
    }
}

/// The message where an index holds no build for the guest.
pub fn no_build(base_ref: &str) -> (r: String)
    ensures
        r@ == base_ref@ + " has no linux/arm64 build"@,
{
    let mut s = base_ref.to_owned();
    s.append(" has no linux/arm64 build");
    s
}

/// A layer of an image.
pub struct Layer {
    pub digest: String,
    pub media: String,
    pub size: i64,
}

pub open spec fn layer_model(l: Layer) -> (Seq<char>, Seq<char>, i64) {
    (l.digest@, l.media@, l.size)
}

/// What the layers say: digest, media type and size of each.
pub open spec fn layer_models(layers: Seq<Layer>) -> Seq<(Seq<char>, Seq<char>, i64)> {
    layers.map_values(|l: Layer| layer_model(l))
}

/// A text that may be missing, which then reads as empty.
pub open spec fn text_or_empty(o: Option<Seq<char>>) -> Seq<char> {
    match o {
        Some(s) => s,
        None => Seq::<char>::empty(),
    }
}

/// A number that may be missing, which then reads as zero.
pub open spec fn number_or_zero(o: Option<i64>) -> i64 {
    match o {
        Some(n) => n,
        None => 0,
    }
}

/// The layer with these fields, some of which may be missing.
pub fn layer_from(digest: Option<String>, media: Option<String>, size: Option<i64>) -> (r: Layer)
    ensures
        r.digest@ == text_or_empty(text::opt_text(digest)),
        r.media@ == text_or_empty(text::opt_text(media)),
        r.size == number_or_zero(size),
{
    Layer {
        digest: match digest {
            Some(s) => s,
            None => String::new(),
        },
        media: match media {
            Some(s) => s,
            None => String::new(),
        },
        size: match size {
            Some(n) => n,
            None => 0,
        },
    }
}

/// The `i`-th layer that a manifest lists.
pub open spec fn listed_layer(body: Seq<u8>, i: nat) -> (Seq<char>, Seq<char>, i64) {
    (
        text_or_empty(json::json_text_of(body, element_pointer("/layers/"@, i, "/digest"@))),
        text_or_empty(json::json_text_of(body, element_pointer("/layers/"@, i, "/mediaType"@))),
        number_or_zero(json::json_integer_of(body, element_pointer("/layers/"@, i, "/size"@))),
    )
}

/// The message where a manifest lists no layers.
pub const NO_LAYERS: &'static str = "manifest has no layers";

/// The layers that a manifest lists, in order.
pub open spec fn listed_layers(body: Seq<u8>) -> Option<Seq<(Seq<char>, Seq<char>, i64)>> {
    match json::json_count_of(body, "/layers"@) {
        None => None,
        Some(n) => Some(Seq::new(n, |i: int| listed_layer(body, i as nat))),
    }
}

/// The layers that a manifest lists, in order; nothing where it lists none.
pub fn layers(body: &[u8]) -> (r: Option<Vec<Layer>>)
    ensures
        match listed_layers(body@) {
            None => r is None,
            Some(all) => r is Some && layer_models(r->0@) == all,
        },
{
    let n = match json::json_count(body, "/layers") {
        None => return None,
        Some(n) => n,
    };
    let mut out: Vec<Layer> = Vec::new();
    for i in 0..n
        invariant
            out@.len() == i,
            forall|j: int|
                0 <= j < i ==> layer_model(#[trigger] out@[j]) == listed_layer(body@, j as nat),
    {
        let digest = json::json_text(body, element("/layers/", i, "/digest").as_str());
        let media = json::json_text(body, element("/layers/", i, "/mediaType").as_str());
        let size = json::json_integer(body, element("/layers/", i, "/size").as_str());
        out.push(layer_from(digest, media, size));
    }
    assert(layer_models(out@) =~= Seq::new(n as nat, |i: int| listed_layer(body@, i as nat)));
    Some(out)
}

/// Why a layer of this type cannot be used, if it cannot.
pub open spec fn layer_problem(base_ref: Seq<char>, media: Seq<char>) -> Option<Seq<char>> {
    if !text::holds(media, "tar"@) {
        Some("unsupported layer type in "@ + base_ref + ": "@ + media)
    } else if text::holds(media, "zstd"@) {
        Some("zstd-compressed images are not supported yet: "@ + base_ref)
    } else {
        None
    }
}

pub fn check_layer(base_ref: &str, media: &str) -> (r: Result<(), String>)
    ensures
        match layer_problem(base_ref@, media@) {
            None => r is Ok,
            Some(m) => r is Err && r->Err_0@ == m,
        },
{
    if !text::contains(media, "tar") {
        let mut s = text::concat3("unsupported layer type in ", base_ref, ": ");
        s.append(media);
        return Err(s);
    }
    if text::contains(media, "zstd") {
        let mut s = "zstd-compressed images are not supported yet: ".to_owned();
        s.append(base_ref);
        return Err(s);
    }
    Ok(())
}

/// What to do about the layers.
pub enum LayerStep {
    /// Fetch a layer from here, and apply it.
    Fetch(String),
    Fail(String),
    /// Every layer is applied.
    Finished,
}

/// The layers are fetched one after the other, up to one that cannot be used.
pub open spec fn follows_layers(
    img: ImageRef,
    base_ref: Seq<char>,
    layers: Seq<Layer>,
    applied: int,
    r: LayerStep,
) -> bool {
    if applied >= layers.len() {
        r is Finished
    } else {
        match layer_problem(base_ref, layers[applied].media@) {
            Some(m) => r is Fail && r->Fail_0@ == m,
            None => r is Fetch && r->Fetch_0@ == img.blob_at(layers[applied].digest@),
        }
    }
}

/// What to do once the first `applied` layers are applied.
pub fn next_layer(img: &ImageRef, base_ref: &str, layers: &[Layer], applied: usize) -> (r: LayerStep)
    ensures
        follows_layers(*img, base_ref@, layers@, applied as int, r),
{
    if applied >= layers.len() {
        return LayerStep::Finished;
    }
    match check_layer(base_ref, layers[applied].media.as_str()) {
        Err(m) => LayerStep::Fail(m),
        Ok(_) => LayerStep::Fetch(img.blob_url(layers[applied].digest.as_str())),
    }
}

/// What is shown while a layer is fetched; the first has number one.
pub fn layer_progress(number: usize, count: usize, megabytes: &str) -> (r: String)
    ensures
        r@ == "moo:   layer "@ + text::decimal(number as nat) + "/"@ + text::decimal(count as nat)
            + " ("@ + megabytes@ + " MB)"@,
{
    let n = text::format_decimal(number as u64);
    let m = text::format_decimal(count as u64);
    let mut s = text::concat3("moo:   layer ", n.as_str(), "/");
    s.append(m.as_str());
    s.append(" (");
    s.append(megabytes);
    s.append(" MB)");
    s
}

/// What kind of node an entry of a layer makes.
#[derive(PartialEq, Eq, Structural)]
pub enum EntryKind {
    Block,
    Char,
    Fifo,
    Other,
}

/// What to do with an entry of a layer. Paths are relative to the root of
/// the image.
pub enum LayerAction {
    Skip,
    /// Remove everything in a directory.
    Clear { dir: Vec<u8> },
    /// Remove a name from a directory.
    Remove { dir: Vec<u8>, name: String },
    /// Unpack the entry, whose path is this.
    Unpack { path: Vec<u8> },
}

pub enum LayerActionModel {
    Skip,
    Clear { dir: Seq<u8> },
    Remove { dir: Seq<u8>, name: Seq<char> },
    Unpack { path: Seq<u8> },
}

impl View for LayerAction {
    type V = LayerActionModel;

    open spec fn view(&self) -> LayerActionModel {
        match self {
            LayerAction::Skip => LayerActionModel::Skip,
            LayerAction::Clear { dir } => LayerActionModel::Clear { dir: dir@ },
            LayerAction::Remove { dir, name } => LayerActionModel::Remove {
                dir: dir@,
                name: name@,
            },
            LayerAction::Unpack { path } => LayerActionModel::Unpack { path: path@ },
        }
    }
}

/// The path of an entry, without the leading dot.
pub open spec fn layer_route(path: Seq<u8>) -> paths::RouteModel {
    let route = paths::route_of(path);
    if !route.absolute && route.names.len() > 0 && route.names[0] == seq![paths::DOT] {
        paths::RouteModel { absolute: false, names: route.names.skip(1) }
    } else {
        route
    }
}

/// The name that empties a directory.
pub const OPAQUE_MARK: &'static str = ".wh..wh..opq";

/// The start of a name that removes the rest of the name.
pub const WHITEOUT: &'static str = ".wh.";

/// What an entry of a layer asks for: `.wh.<name>` removes a name of an
/// earlier layer, `.wh..wh..opq` empties the directory, device nodes and
/// pipes are left out, and everything else is unpacked.
pub open spec fn layer_decision(path: Seq<u8>, kind: EntryKind) -> LayerActionModel {
    let route = layer_route(path);
    match route.file_name() {
        None => LayerActionModel::Skip,
        Some(last) => if !vstd::utf8::valid_utf8(last) {
            LayerActionModel::Skip
        } else {
            let name = vstd::utf8::decode_utf8(last);
            let dir = route.parent()->0.written();
            if name == OPAQUE_MARK@ {
                LayerActionModel::Clear { dir }
            } else if WHITEOUT@.is_prefix_of(name) {
                LayerActionModel::Remove { dir, name: name.skip(WHITEOUT@.len() as int) }
            } else if kind != EntryKind::Other {
                LayerActionModel::Skip
            } else {
                LayerActionModel::Unpack { path: route.written() }
            }
        },
    }
}

fn entry_route(path: &[u8]) -> (r: paths::Route)
    ensures
        r@ == layer_route(path@),
{
    let route = paths::Route::parse(path);
    let n = route.names.len();
    assert(route@.names.len() == n);
    if !route.absolute && n > 0 {
        assert(route@.names[0] == route.names@[0]@);
        let dot = route.names[0].len() == 1 && route.names[0][0] == paths::DOT;
        if dot {
            assert(route.names@[0]@ =~= seq![paths::DOT]);
            let mut names: Vec<Vec<u8>> = Vec::new();
            let ghost rest = route@.names.skip(1);
            assert(rest.take(0) =~= bytes::byte_strings(names@));
            let mut i: usize = 1;
            while i < n
                invariant
                    1 <= i <= n,
                    n == route.names@.len(),
                    rest == route@.names.skip(1),
                    bytes::byte_strings(names@) == rest.take(i - 1),
                decreases n - i,
            {
                let name = bytes::slice_of(&route.names[i], 0, route.names[i].len());
                assert(name@ =~= route.names@[i as int]@);
                let ghost held = bytes::byte_strings(names@);
                names.push(name);
                assert(bytes::byte_strings(names@) =~= held.push(name@));
                assert(rest[i - 1] == name@);
                assert(rest.take(i as int) =~= held.push(rest[i - 1]));
                i = i + 1;
            }
            assert(rest.take(n - 1) =~= rest);
            let r = paths::Route { absolute: false, names };
            assert(r@ =~= layer_route(path@));
            return r;
        }
    }
    route
}

/// What to do with an entry of a layer.
pub fn layer_action(path: &[u8], kind: EntryKind) -> (r: LayerAction)
    ensures
        r@ == layer_decision(path@, kind),
{
    let route = entry_route(path);
    let last = match route.file_name() {
        None => return LayerAction::Skip,
        Some(last) => last,
    };
    let name = match text::utf8_text(&last) {
        None => return LayerAction::Skip,
        Some(name) => name,
    };
    let n = route.names.len();
    assert(route@.names.len() == n);
    let parent = route.ancestor(n - 1);
    proof {
        assert(route@.names.take(n - 1) =~= route@.names.drop_last());
        assert(parent@ =~= route@.parent()->0);
    }
    if text::same(name.as_str(), OPAQUE_MARK) {
        return LayerAction::Clear { dir: parent.written() };
    }
    if let Some(hidden) = text::strip_prefix(name.as_str(), WHITEOUT) {
        return LayerAction::Remove { dir: parent.written(), name: hidden };
    }
    if kind != EntryKind::Other {
        return LayerAction::Skip;
    }
    LayerAction::Unpack { path: route.written() }
}

/// Marks are never unpacked: nothing whose name starts like a whiteout ends
/// up in the image.
pub proof fn whiteouts_are_not_unpacked(path: Seq<u8>, kind: EntryKind)
    ensures
        match layer_route(path).file_name() {
            Some(last) => vstd::utf8::valid_utf8(last) && WHITEOUT@.is_prefix_of(
                vstd::utf8::decode_utf8(last),
            ) ==> layer_decision(path, kind) !is Unpack,
            None => layer_decision(path, kind) is Skip,
        },
{
}

/// Where the agent is in the image.
pub const AGENT_IN_IMAGE: &'static str = "usr/local/bin/moo-agent";

/// The places where a tool may be installed.
pub open spec fn tool_places(name: Seq<char>) -> Seq<Seq<char>> {
    seq![
        "/opt/homebrew/opt/e2fsprogs/sbin/"@ + name,
        "/opt/homebrew/sbin/"@ + name,
        "/usr/local/sbin/"@ + name,
    ]
}

/// The answer about a path.
pub open spec fn says<F: Fn(String) -> bool>(there: F, path: Seq<char>, b: bool) -> bool {
    exists|p: String| p@ == path && #[trigger] call_ensures(there, (p,), b)
}

/// The path is the first place where the tool is.
pub open spec fn found_at<F: Fn(String) -> bool>(there: F, name: Seq<char>, path: Seq<char>) -> bool {
    exists|k: int|
        0 <= k < tool_places(name).len() && #[trigger] tool_places(name)[k] == path && says(
            there,
            path,
            true,
        ) && forall|j: int| 0 <= j < k ==> says(there, #[trigger] tool_places(name)[j], false)
}

/// The tool is in none of the places.
pub open spec fn missing<F: Fn(String) -> bool>(there: F, name: Seq<char>) -> bool {
    forall|j: int|
        0 <= j < tool_places(name).len() ==> says(there, #[trigger] tool_places(name)[j], false)
}

fn place_of(dir: &str, name: &str) -> (r: String)
    ensures
        r@ == dir@ + name@,
{
    let mut s = dir.to_owned();
    s.append(name);
    s
}

/// Where a tool is installed, if it is.
pub fn find_tool<F: Fn(String) -> bool>(name: &str, there: &F) -> (r: Option<String>)
    requires
        forall|p: String| #[trigger] call_requires(*there, (p,)),
    ensures
        match r {
            Some(p) => found_at(*there, name@, p@),
            None => missing(*there, name@),
        },
{
    let places = vec![
        place_of("/opt/homebrew/opt/e2fsprogs/sbin/", name),
        place_of("/opt/homebrew/sbin/", name),
        place_of("/usr/local/sbin/", name),
    ];
    let ghost all = tool_places(name@);
    assert(text::texts(places@) =~= all);
    for i in 0..places.len()
        invariant
            forall|p: String| #[trigger] call_requires(*there, (p,)),
            all == tool_places(name@),
            text::texts(places@) == all,
            forall|j: int| 0 <= j < i ==> says(*there, #[trigger] all[j], false),
    {
        let place = places[i].clone();
        assert(all[i as int] == place@);
        let found = there(places[i].clone());
        assert(says(*there, all[i as int], found));
        if found {
            assert(found_at(*there, name@, place@));
            return Some(place);
        }
    }
    assert(all.len() == places@.len());
    None
}

/// The message where a tool is missing.
pub fn tool_missing(name: &str) -> (r: String)
    ensures
        r@ == name@ + " not found \u{2014} run `moo doctor` for setup instructions"@,
{
    let mut s = name.to_owned();
    s.append(" not found \u{2014} run `moo doctor` for setup instructions");
    s
}

/// The tool is in one of the places.
pub open spec fn found<F: Fn(String) -> bool>(there: F, name: Seq<char>) -> bool {
    exists|path: Seq<char>| #[trigger] found_at(there, name, path)
}

/// True if the tools that build images are installed.
pub fn tools_installed<F: Fn(String) -> bool>(there: &F) -> (r: bool)
    requires
        forall|p: String| #[trigger] call_requires(*there, (p,)),
    ensures
        r ==> found(*there, "mkfs.ext4"@) && found(*there, "debugfs"@),
        !r ==> missing(*there, "mkfs.ext4"@) || missing(*there, "debugfs"@),
{
    match find_tool("mkfs.ext4", there) {
        None => false,
        Some(_) => match find_tool("debugfs", there) {
            None => false,
            Some(_) => true,
        },
    }
}

/// The size of an image in gigabytes for so many bytes of files.
pub open spec fn gigabytes(used: nat) -> nat {
    let n = used * 2 / 1_000_000_000 + 4;
    if n > 8 {
        n
    } else {
        8
    }
}

pub fn image_gigabytes(used: u64) -> (r: u64)
    requires
        used <= u64::MAX / 2,
    ensures
        r == gigabytes(used as nat),
{
    let n = (used * 2) / 1_000_000_000 + 4;
    if n > 8 {
        n
    } else {
        8
    }
}

/// An image has room for twice what it starts with.
pub proof fn image_has_room(used: nat)
    ensures
        gigabytes(used) * 1_000_000_000 >= 2 * used,
        gigabytes(used) >= 8,
{
    assert((used * 2 / 1_000_000_000 + 4) * 1_000_000_000 >= 2 * used);
}

/// The words that build a file system from a directory.
pub open spec fn mkfs_words(rootfs: Seq<char>, out: Seq<char>, gigabytes: nat) -> Seq<Seq<char>> {
    seq!["-q"@, "-F"@, "-d"@, rootfs, "-L"@, "mooroot"@, out, text::decimal(gigabytes) + "G"@]
}

/// The command line that builds a file system from a directory.
pub fn mkfs_args(rootfs: &str, out: &str, gigabytes: u64) -> (r: Vec<String>)
    ensures
        text::texts(r@) == mkfs_words(rootfs@, out@, gigabytes as nat),
{
    let mut size = text::format_decimal(gigabytes);
    size.append("G");
    let r = vec![
        "-q".to_owned(),
        "-F".to_owned(),
        "-d".to_owned(),
        rootfs.to_owned(),
        "-L".to_owned(),
        "mooroot".to_owned(),
        out.to_owned(),
        size,
    ];
    assert(text::texts(r@) =~= mkfs_words(rootfs@, out@, gigabytes as nat));
    r
}

/// A path of the image and its owner.
pub struct Owner {
    pub path: String,
    pub uid: u64,
    pub gid: u64,
}

pub open spec fn owner_model(o: Owner) -> (Seq<char>, u64, u64) {
    (o.path@, o.uid, o.gid)
}

/// The owners, as paths and numbers.
pub open spec fn owner_models(owners: Seq<Owner>) -> Seq<(Seq<char>, u64, u64)> {
    owners.map_values(|o: Owner| owner_model(o))
}

/// The owners once an entry was seen.
pub open spec fn owners_after(
    owners: Seq<(Seq<char>, u64, u64)>,
    unpacked: bool,
    path: Seq<char>,
    uid: u64,
    gid: u64,
) -> Seq<(Seq<char>, u64, u64)> {
    if unpacked {
        owners.push((path, uid, gid))
    } else {
        owners
    }
}

/// Records the owner that a layer gives to an entry, root too, once the
/// entry is unpacked.
pub fn record_owner(owners: &mut Vec<Owner>, unpacked: bool, path: &str, uid: u64, gid: u64)
    ensures
        owner_models(final(owners)@) == owners_after(
            owner_models(old(owners)@),
            unpacked,
            path@,
            uid,
            gid,
        ),
{
    if unpacked {
        owners.push(Owner { path: path.to_owned(), uid, gid });
        assert(owner_models(owners@) =~= owner_models(old(owners)@).push((path@, uid, gid)));
    }
}

/// The lines that set the owner of a path.
pub open spec fn owner_lines(o: (Seq<char>, u64, u64)) -> Seq<char> {
    "sif \"/"@ + o.0 + "\" uid "@ + text::decimal(o.1 as nat) + "\nsif \"/"@ + o.0 + "\" gid "@
        + text::decimal(o.2 as nat) + "\n"@
}

/// The lines that set the owners, one after the other.
pub open spec fn all_lines(owners: Seq<(Seq<char>, u64, u64)>) -> Seq<char>
    decreases owners.len(),
{
    if owners.len() == 0 {
        Seq::<char>::empty()
    } else {
        all_lines(owners.drop_last()) + owner_lines(owners.last())
    }
}

/// The owners in the order in which they are set: every path goes to root,
/// and then the recorded owners are applied.
pub open spec fn sweep(found: Seq<Seq<char>>, owners: Seq<(Seq<char>, u64, u64)>) -> Seq<
    (Seq<char>, u64, u64),
> {
    found.map_values(|p: Seq<char>| (p, 0u64, 0u64)) + owners
}

/// The script that sets the owners in an image.
pub open spec fn ownership_text(found: Seq<Seq<char>>, owners: Seq<(Seq<char>, u64, u64)>) -> Seq<
    char,
> {
    "sif / uid 0\nsif / gid 0\n"@ + all_lines(sweep(found, owners))
}

fn push_owner(script: &mut String, path: &str, uid: u64, gid: u64)
    ensures
        final(script)@ == old(script)@ + owner_lines((path@, uid, gid)),
{
    let u = text::format_decimal(uid);
    let g = text::format_decimal(gid);
    script.append("sif \"/");
    script.append(path);
    script.append("\" uid ");
    script.append(u.as_str());
    script.append("\nsif \"/");
    script.append(path);
    script.append("\" gid ");
    script.append(g.as_str());
    script.append("\n");
    assert(script@ =~= old(script)@ + owner_lines((path@, uid, gid)));
}

/// The script that gives every path of the image to root, but those with a
/// recorded owner.
pub fn ownership_script(found: &[String], owners: &[Owner]) -> (r: String)
    ensures
        r@ == ownership_text(
            text::texts(found@),
            owner_models(owners@),
        ),
{
    let mut script = "sif / uid 0\nsif / gid 0\n".to_owned();
    let ghost head = script@;
    let ghost rows = owner_models(owners@);
    let ghost all = sweep(text::texts(found@), rows);
    assert(head + all_lines(all.take(0)) =~= head);
    for i in 0..found.len()
        invariant
            rows == owner_models(owners@),
            all == sweep(text::texts(found@), rows),
            script@ == head + all_lines(all.take(i as int)),
    {
        let ghost t = all.take(i as int + 1);
        assert(t.drop_last() =~= all.take(i as int));
        assert(t.last() == (found@[i as int]@, 0u64, 0u64));
        push_owner(&mut script, found[i].as_str(), 0, 0);
        assert(script@ =~= head + all_lines(t));
    }
    let n = found.len();
    for i in 0..owners.len()
        invariant
            n == found@.len(),
            rows == owner_models(owners@),
            all == sweep(text::texts(found@), rows),
            script@ == head + all_lines(all.take(n + i)),
    {
        let ghost t = all.take(n + i + 1);
        assert(t.drop_last() =~= all.take(n + i));
        assert(t.last() == owner_model(owners@[i as int]));
        push_owner(&mut script, owners[i].path.as_str(), owners[i].uid, owners[i].gid);
        assert(script@ =~= head + all_lines(t));
    }
    assert(all.take(all.len() as int) =~= all);
    script
}

/// The owner that a path has after the script: the one set last.
pub open spec fn final_owner(set: Seq<(Seq<char>, u64, u64)>, path: Seq<char>) -> Option<(u64, u64)>
    decreases set.len(),
{
    if set.len() == 0 {
        None
    } else if set.last().0 == path {
        Some((set.last().1, set.last().2))
    } else {
        final_owner(set.drop_last(), path)
    }
}

/// Recorded owners prevail, and every other path of the image belongs to root.
pub proof fn recorded_owners_prevail(
    found: Seq<Seq<char>>,
    owners: Seq<(Seq<char>, u64, u64)>,
    path: Seq<char>,
)
    ensures
        final_owner(owners, path) is Some ==> final_owner(sweep(found, owners), path)
            == final_owner(owners, path),
        final_owner(owners, path) is None && found.contains(path) ==> final_owner(
            sweep(found, owners),
            path,
        ) == Some((0u64, 0u64)),
    decreases owners.len(),
{
    let all = sweep(found, owners);
    if owners.len() > 0 {
        assert(all.drop_last() =~= sweep(found, owners.drop_last()));
        recorded_owners_prevail(found, owners.drop_last(), path);
    } else {
        let roots = found.map_values(|p: Seq<char>| (p, 0u64, 0u64));
        assert(all =~= roots);
        if found.contains(path) {
            lemma_root_owner(found, path);
        }
    }
}

/// The last layer's owner wins: whatever earlier layers recorded for a path,
/// and whatever is recorded for other paths later, the image gives the path
/// to the owner of its last entry.
pub proof fn last_layer_wins(
    found: Seq<Seq<char>>,
    earlier: Seq<(Seq<char>, u64, u64)>,
    path: Seq<char>,
    uid: u64,
    gid: u64,
    later: Seq<(Seq<char>, u64, u64)>,
)
    requires
        forall|i: int| 0 <= i < later.len() ==> (#[trigger] later[i]).0 != path,
    ensures
        final_owner(sweep(found, earlier.push((path, uid, gid)) + later), path) == Some((uid, gid)),
    decreases later.len(),
{
    let recorded = earlier.push((path, uid, gid)) + later;
    let all = sweep(found, recorded);
    if later.len() == 0 {
        assert(all.last() == (path, uid, gid));
    } else {
        let t = later.drop_last();
        assert forall|i: int| 0 <= i < t.len() implies (#[trigger] t[i]).0 != path by {
            assert(later[i] == t[i]);
        }
        last_layer_wins(found, earlier, path, uid, gid, t);
        assert(all.last() == later[later.len() - 1]);
        assert(all.drop_last() =~= sweep(found, earlier.push((path, uid, gid)) + t));
    }
}

proof fn lemma_root_owner(found: Seq<Seq<char>>, path: Seq<char>)
    requires
        found.contains(path),
    ensures
        final_owner(found.map_values(|p: Seq<char>| (p, 0u64, 0u64)), path) == Some((0u64, 0u64)),
    decreases found.len(),
{
    let roots = found.map_values(|p: Seq<char>| (p, 0u64, 0u64));
    assert(roots.last().0 == found.last());
    if found.last() != path {
        let t = found.drop_last();
        let k = choose|k: int| 0 <= k < found.len() && found[k] == path;
        assert(t[k] == path);
        lemma_root_owner(t, path);
        assert(roots.drop_last() =~= t.map_values(|p: Seq<char>| (p, 0u64, 0u64)));
    }
}

} // verus!
