//! The Google Cloud commands: what each one prints for what the cloud answered.
use vstd::prelude::*;
use vstd::string::{StringExecFns, StringSliceAdditionalSpecFns};
use vstd::utf8::{
    decode_utf8, decode_utf8_encode_utf8, decode_utf8_split, encode_utf8, encode_utf8_decode_utf8,
    encode_utf8_valid_utf8, is_char_boundary, valid_utf8_split,
};

use crate::text::{decimal, push_decimal};

pub mod auth;
pub mod storage;

verus! {

broadcast use vstd::string::group_string_axioms;

/// A Cloud Storage command.
pub enum Storage {
    Buckets(storage::Buckets),
}

/// An authentication command.
pub enum Auth {
    Token(auth::Token),
}

/// A Google Cloud command.
pub enum Resource {
    Storage(Storage),
    Auth(Auth),
}

/// An access token as the cloud hands it out.
pub struct AccessToken {
    pub access_token: String,
    pub token_type: String,
    pub expires_in: u64,
}

/// A Cloud Storage bucket as the cloud describes it.
pub struct Bucket {
    pub name: String,
    pub location: Option<String>,
    pub storage_class: Option<String>,
    pub time_created: Option<String>,
}

/// What the cloud answered to a command; an error is carried as its debug text.
pub enum Reply {
    Token(Result<AccessToken, String>),
    Buckets(Result<Vec<Bucket>, String>),
    Bucket(Result<Bucket, String>),
    Deleted(Result<(), String>),
}

/// The lines a command prints: `out` on standard output, `err` on standard error.
pub struct Report {
    pub out: Vec<String>,
    pub err: Vec<String>,
}

/// The texts of a sequence of strings.
pub open spec fn texts(v: Seq<String>) -> Seq<Seq<char>> {
    v.map_values(|s: String| s@)
}

/// The host call that a command makes, with its arguments.
pub enum HostCall {
    GetToken { scopes: Vec<String> },
    ListBuckets { project: String },
    GetBucket { name: String },
    CreateBucket { project: String, name: String },
    DeleteBucket { name: String },
}

/// Whether `c` is the host call for the command `r`, with the command's arguments.
pub open spec fn calls_for(r: Resource, c: HostCall) -> bool {
    match r {
        Resource::Auth(Auth::Token(auth::Token::Get { scopes })) => {
            &&& c matches HostCall::GetToken { scopes: s }
            &&& texts(s@) == texts(scopes@)
        },
        Resource::Storage(Storage::Buckets(b)) => match b {
            storage::Buckets::List { project } => {
                &&& c matches HostCall::ListBuckets { project: p }
                &&& p@ == project@
            },
            storage::Buckets::Get { name } => {
                &&& c matches HostCall::GetBucket { name: n }
                &&& n@ == name@
            },
            storage::Buckets::Create { project, name } => {
                &&& c matches HostCall::CreateBucket { project: p, name: n }
                &&& p@ == project@
                &&& n@ == name@
            },
            storage::Buckets::Delete { name } => {
                &&& c matches HostCall::DeleteBucket { name: n }
                &&& n@ == name@
            },
        },
    }
}

/// A copy of a list of strings.
fn copy_strings(v: &Vec<String>) -> (out: Vec<String>)
    ensures
        texts(out@) == texts(v@),
{
    let mut out: Vec<String> = Vec::new();
    let mut i: usize = 0;
    while i < v.len()
        invariant
            i <= v@.len(),
            out@.len() == i,
            forall|k: int| 0 <= k < i ==> #[trigger] out@[k]@ == v@[k]@,
        decreases v@.len() - i,
    {
        let s = v[i].clone();
        out.push(s);
        i = i + 1;
    }
    assert(texts(out@) =~= texts(v@));
    out
}

/// The host call that the command `r` makes.
pub fn host_call(r: &Resource) -> (c: HostCall)
    ensures
        calls_for(*r, c),
{
    match r {
        Resource::Auth(Auth::Token(auth::Token::Get { scopes })) => HostCall::GetToken {
            scopes: copy_strings(scopes),
        },
        Resource::Storage(Storage::Buckets(b)) => match b {
            storage::Buckets::List { project } => HostCall::ListBuckets { project: project.clone() },
            storage::Buckets::Get { name } => HostCall::GetBucket { name: name.clone() },
            storage::Buckets::Create { project, name } => HostCall::CreateBucket {
                project: project.clone(),
                name: name.clone(),
            },
            storage::Buckets::Delete { name } => HostCall::DeleteBucket { name: name.clone() },
        },
    }
}

// ---------------------------------------------------------------------------
// Masking a token
// ---------------------------------------------------------------------------

/// Whether `token` can be masked: at most 4 bytes long, or byte 4 starts a character
/// (else taking its first 4 bytes would cut a character).
pub open spec fn maskable(token: Seq<char>) -> bool {
    encode_utf8(token).len() <= 4 || is_char_boundary(encode_utf8(token), 4)
}

/// A token with all but its first 4 bytes hidden behind `***`; a token of at most 4
/// bytes is hidden entirely.
pub open spec fn masked(token: Seq<char>) -> Seq<char> {
    let bytes = encode_utf8(token);
    if bytes.len() <= 4 {
        "***"@
    } else {
        decode_utf8(bytes.subrange(0, 4)) + "***"@
    }
}

/// `token` masked for printing.
pub fn mask_token(token: &str) -> (m: String)
    requires
        maskable(token@),
    ensures
        m@ == masked(token@),
{
    let mut m = String::new();
    if token.as_bytes().len() <= 4 {
        m.append("***");
        assert(m@ =~= "***"@);
        return m;
    }
    let (head, _rest) = token.split_at(4);
    proof {
        encode_utf8_decode_utf8(head@);
    }
    m.append(head);
    m.append("***");
    m
}

/// A masked token shows nothing of the token but a prefix of at most four bytes,
/// followed by `***`.
pub proof fn lemma_mask_shows_only_a_prefix(token: Seq<char>)
    requires
        maskable(token),
    ensures
        exists|p: Seq<char>|
            #![trigger encode_utf8(p)]
            masked(token) == p + "***"@ && token.take(p.len() as int) == p && encode_utf8(p).len()
                <= 4,
{
    let bytes = encode_utf8(token);
    if bytes.len() <= 4 {
        let p = Seq::<char>::empty();
        assert(masked(token) =~= p + "***"@);
        assert(token.take(0) =~= p);
        assert(encode_utf8(p) =~= Seq::<u8>::empty());
    } else {
        let p = decode_utf8(bytes.subrange(0, 4));
        encode_utf8_valid_utf8(token);
        encode_utf8_decode_utf8(token);
        decode_utf8_split(bytes, 4);
        valid_utf8_split(bytes, 4);
        decode_utf8_encode_utf8(bytes.subrange(0, 4));
        assert(bytes.subrange(0, bytes.len() as int) =~= bytes);
        assert(token.take(p.len() as int) =~= p);
        assert(encode_utf8(p).len() <= 4);
    }
}

/// A token of more than 4 bytes is masked to exactly its first 4 bytes followed by
/// `***`, however long it is; a shorter one is hidden entirely.
pub proof fn lemma_mask_keeps_four_bytes(token: Seq<char>)
    requires
        maskable(token),
    ensures
        encode_utf8(token).len() <= 4 ==> masked(token) == "***"@,
        encode_utf8(token).len() > 4 ==> exists|k: int|
            #![trigger token.take(k)]
            0 <= k <= token.len() && encode_utf8(token.take(k)) == encode_utf8(token).subrange(0, 4)
                && masked(token) == token.take(k) + "***"@,
{
    let bytes = encode_utf8(token);
    if bytes.len() > 4 {
        let p = decode_utf8(bytes.subrange(0, 4));
        encode_utf8_valid_utf8(token);
        encode_utf8_decode_utf8(token);
        decode_utf8_split(bytes, 4);
        valid_utf8_split(bytes, 4);
        decode_utf8_encode_utf8(bytes.subrange(0, 4));
        assert(bytes.subrange(0, bytes.len() as int) =~= bytes);
        assert(token.take(p.len() as int) =~= p);
        assert(encode_utf8(token.take(p.len() as int)) == bytes.subrange(0, 4));
    }
}

// ---------------------------------------------------------------------------
// Lines of a report
// ---------------------------------------------------------------------------

/// `label` followed by the value, as one line, where there is a value.
pub open spec fn optional_line(label: Seq<char>, value: Option<String>) -> Seq<Seq<char>> {
    match value {
        Some(v) => seq![label + v@],
        None => Seq::empty(),
    }
}

/// The lines describing a bucket: its name, then its location, storage class and
/// creation time where the cloud gave them.
pub open spec fn bucket_lines(b: Bucket) -> Seq<Seq<char>> {
    seq!["  name: "@ + b.name@] + optional_line("  location: "@, b.location) + optional_line(
        "  storage-class: "@,
        b.storage_class,
    ) + optional_line("  time-created: "@, b.time_created)
}

/// The lines describing a bucket: first its name, then one line for each of the
/// location, storage class and creation time that the cloud gave, in that order,
/// the creation time last.
pub proof fn lemma_bucket_lines(b: Bucket)
    ensures
        bucket_lines(b).len() == 1 + (if b.location is Some { 1int } else { 0 }) + (if b.storage_class
            is Some {
            1int
        } else {
            0
        }) + (if b.time_created is Some { 1int } else { 0 }),
        bucket_lines(b)[0] == "  name: "@ + b.name@,
        b.location matches Some(l) ==> bucket_lines(b)[1] == "  location: "@ + l@,
        b.storage_class matches Some(c) ==> bucket_lines(b)[if b.location is Some {
            2int
        } else {
            1
        }] == "  storage-class: "@ + c@,
        b.time_created matches Some(t) ==> bucket_lines(b).last() == "  time-created: "@ + t@,
{
}

/// The lines describing each bucket, each description followed by an empty line.
pub open spec fn bucket_list_lines(bs: Seq<Bucket>) -> Seq<Seq<char>>
    decreases bs.len(),
{
    if bs.len() == 0 {
        Seq::empty()
    } else {
        bucket_list_lines(bs.drop_last()) + bucket_lines(bs.last()) + seq![Seq::<char>::empty()]
    }
}

/// The lines describing an access token, its value masked.
pub open spec fn token_lines(t: AccessToken) -> Seq<Seq<char>> {
    seq![
        "Token:"@,
        "  access-token: "@ + masked(t.access_token@),
        "  token-type: "@ + t.token_type@,
        "  expires-in: "@ + decimal(t.expires_in as nat),
    ]
}

/// The line for an error the cloud answered with.
pub open spec fn error_line(e: String) -> Seq<char> {
    "Error: "@ + e@
}

/// Whether `reply` is the kind of answer that the command `r` gets.
pub open spec fn answers(r: Resource, reply: Reply) -> bool {
    match r {
        Resource::Auth(_) => reply is Token,
        Resource::Storage(Storage::Buckets(b)) => match b {
            storage::Buckets::List { .. } => reply is Buckets,
            storage::Buckets::Get { .. } => reply is Bucket,
            storage::Buckets::Create { .. } => reply is Bucket,
            storage::Buckets::Delete { .. } => reply is Deleted,
        },
    }
}

/// Whether the reply can be printed: a token in it can be masked.
pub open spec fn printable(reply: Reply) -> bool {
    reply matches Reply::Token(Ok(t)) ==> maskable(t.access_token@)
}

/// The standard-output lines for the command `r` answered by `reply`.
pub open spec fn report_out(r: Resource, reply: Reply) -> Seq<Seq<char>> {
    match reply {
        Reply::Token(Ok(t)) => token_lines(t),
        Reply::Buckets(Ok(bs)) => {
            let project = match r {
                Resource::Storage(Storage::Buckets(storage::Buckets::List { project })) => project@,
                _ => Seq::empty(),
            };
            seq!["Buckets in project '"@ + project + "':"@] + bucket_list_lines(bs@) + if bs@.len()
                == 0 {
                seq!["  (none)"@]
            } else {
                Seq::empty()
            }
        },
        Reply::Bucket(Ok(b)) => {
            let title = match r {
                Resource::Storage(Storage::Buckets(storage::Buckets::Create { .. })) => "Created bucket:"@,
                _ => "Bucket:"@,
            };
            seq![title] + bucket_lines(b)
        },
        Reply::Deleted(Ok(())) => {
            let name = match r {
                Resource::Storage(Storage::Buckets(storage::Buckets::Delete { name })) => name@,
                _ => Seq::empty(),
            };
            seq!["Deleted bucket '"@ + name + "'"@]
        },
        _ => Seq::empty(),
    }
}

/// The standard-error lines for a reply: the error, where the cloud answered one.
pub open spec fn report_err(reply: Reply) -> Seq<Seq<char>> {
    match reply {
        Reply::Token(Err(e)) => seq![error_line(e)],
        Reply::Buckets(Err(e)) => seq![error_line(e)],
        Reply::Bucket(Err(e)) => seq![error_line(e)],
        Reply::Deleted(Err(e)) => seq![error_line(e)],
        _ => Seq::empty(),
    }
}

/// `label` followed by `value`.
fn labelled(label: &str, value: &str) -> (s: String)
    ensures
        s@ == label@ + value@,
{
    let mut s = String::new();
    s.append(label);
    s.append(value);
    s
}

/// Pushes `label` followed by the value, where there is one.
fn push_optional(lines: &mut Vec<String>, label: &str, value: &Option<String>)
    ensures
        texts(final(lines)@) == texts(old(lines)@) + optional_line(label@, *value),
{
    let ghost before = texts(lines@);
    match value {
        Some(v) => {
            lines.push(labelled(label, v.as_str()));
        },
        None => {},
    }
    assert(texts(lines@) =~= before + optional_line(label@, *value));
}

/// Pushes the lines describing a bucket.
fn push_bucket_lines(lines: &mut Vec<String>, b: &Bucket)
    ensures
        texts(final(lines)@) == texts(old(lines)@) + bucket_lines(*b),
{
    let ghost before = texts(lines@);
    lines.push(labelled("  name: ", b.name.as_str()));
    assert(texts(lines@) =~= before + seq!["  name: "@ + b.name@]);
    push_optional(lines, "  location: ", &b.location);
    push_optional(lines, "  storage-class: ", &b.storage_class);
    push_optional(lines, "  time-created: ", &b.time_created);
    assert(texts(lines@) =~= before + bucket_lines(*b));
}

/// The lines printed for a bucket.
pub fn print_bucket_lines(b: &Bucket) -> (lines: Vec<String>)
    ensures
        texts(lines@) == bucket_lines(*b),
{
    let mut lines: Vec<String> = Vec::new();
    push_bucket_lines(&mut lines, b);
    assert(texts(lines@) =~= Seq::<Seq<char>>::empty() + bucket_lines(*b));
    lines
}

/// A single line.
fn one_line(s: String) -> (v: Vec<String>)
    ensures
        texts(v@) == seq![s@],
{
    let mut v: Vec<String> = Vec::new();
    v.push(s);
    assert(texts(v@) =~= seq![s@]);
    v
}

/// What the command `r` prints once the cloud answered `reply`.
pub fn resource_report(r: &Resource, reply: &Reply) -> (rep: Report)
    requires
        answers(*r, *reply),
        printable(*reply),
    ensures
        texts(rep.out@) == report_out(*r, *reply),
        texts(rep.err@) == report_err(*reply),
{
    let mut out: Vec<String> = Vec::new();
    let mut err: Vec<String> = Vec::new();
    assert(texts(err@) =~= Seq::<Seq<char>>::empty());
    match reply {
        Reply::Token(Ok(t)) => {
            out.push("Token:".to_owned());
            let masked_token = mask_token(t.access_token.as_str());
            out.push(labelled("  access-token: ", masked_token.as_str()));
            out.push(labelled("  token-type: ", t.token_type.as_str()));
            let mut line = String::new();
            line.append("  expires-in: ");
            push_decimal(&mut line, t.expires_in);
            out.push(line);
            assert(texts(out@) =~= token_lines(*t));
        },
        Reply::Buckets(Ok(buckets)) => {
            let project = match r {
                Resource::Storage(Storage::Buckets(storage::Buckets::List { project })) => project.as_str(),
                _ => "",
            };
            let mut title = String::new();
            title.append("Buckets in project '");
            title.append(project);
            title.append("':");
            assert(title@ =~= "Buckets in project '"@ + project@ + "':"@);
            out.push(title);
            assert(texts(out@) =~= seq!["Buckets in project '"@ + project@ + "':"@]);
            let ghost head = texts(out@);
            let mut i: usize = 0;
            assert(buckets@.take(0) =~= Seq::<Bucket>::empty());
            while i < buckets.len()
                invariant
                    i <= buckets@.len(),
                    texts(out@) == head + bucket_list_lines(buckets@.take(i as int)),
                decreases buckets@.len() - i,
            {
                push_bucket_lines(&mut out, &buckets[i]);
                let ghost mid = texts(out@);
                out.push(String::new());
                assert(texts(out@) =~= mid.push(Seq::<char>::empty()));
                assert(buckets@.take(i + 1).drop_last() =~= buckets@.take(i as int));
                i = i + 1;
            }
            assert(buckets@.take(buckets@.len() as int) =~= buckets@);
            let ghost listed = texts(out@);
            if buckets.len() == 0 {
                out.push("  (none)".to_owned());
                assert(texts(out@) =~= listed + seq!["  (none)"@]);
            } else {
                assert(texts(out@) =~= listed + Seq::<Seq<char>>::empty());
            }
            assert(texts(out@) =~= report_out(*r, *reply));
        },
        Reply::Bucket(Ok(b)) => {
            let title = match r {
                Resource::Storage(Storage::Buckets(storage::Buckets::Create { .. })) => "Created bucket:",
                _ => "Bucket:",
            };
            out.push(title.to_owned());
            push_bucket_lines(&mut out, b);
            assert(texts(out@) =~= report_out(*r, *reply));
        },
        Reply::Deleted(Ok(())) => {
            let name = match r {
                Resource::Storage(Storage::Buckets(storage::Buckets::Delete { name })) => name.as_str(),
                _ => "",
            };
            let mut line = String::new();
            line.append("Deleted bucket '");
            line.append(name);
            line.append("'");
            assert(line@ =~= "Deleted bucket '"@ + name@ + "'"@);
            out.push(line);
            assert(texts(out@) =~= report_out(*r, *reply));
        },
        Reply::Token(Err(e)) | Reply::Buckets(Err(e)) | Reply::Bucket(Err(e)) | Reply::Deleted(
            Err(e),
        ) => {
            err = one_line(labelled("Error: ", e.as_str()));
            assert(texts(out@) =~= Seq::<Seq<char>>::empty());
        },
    }
    Report { out, err }
}

} // verus!
