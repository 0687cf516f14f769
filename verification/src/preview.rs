//! The exchange with the engine's preview bridge: each request carries a new
//! revision as JSON, and a reply changes the status only when it answers the
//! latest revision. Starting the client and moving the files is the caller's.

use vstd::prelude::*;

use crate::codec::{chars_of, string_of};
use crate::text::{decimal, push_decimal};

verus! {

/// How long an edit settles before the preview is sent, in nanoseconds.
pub const PREVIEW_DELAY_NS: u128 = 400_000_000;

/// Whether an edit made `elapsed_ns` nanoseconds ago has settled long
/// enough for the preview to be sent.
pub fn preview_due(elapsed_ns: u128) -> (r: bool)
    ensures
        r == (elapsed_ns > PREVIEW_DELAY_NS),
{
    elapsed_ns > PREVIEW_DELAY_NS
}

/// The bytes `serde_json::to_vec` writes for the JSON object with the member
/// `revision_key` set to `revision` and the member `text_key` set to `text`.
pub uninterp spec fn preview_request(revision_key: Seq<char>, text_key: Seq<char>, revision: u64, text: Seq<char>) -> Seq<u8>;

/// For bytes that hold a JSON value: its member `revision_key` as a `u64` and
/// its member `message_key` as text, each absent when missing or of another
/// type; `None` for bytes that hold no JSON value.
pub uninterp spec fn preview_response(revision_key: Seq<char>, message_key: Seq<char>, raw: Seq<u8>) -> Option<(Option<u64>, Option<Seq<char>>)>;

/// `serde_json::to_vec` of the object with the two members, built with
/// `serde_json::Map` and `Value::from`. Claimed: the bytes are the named
/// ones. (Serialising a `Value` into a `Vec` does not fail.)
#[verifier::external_body]
fn request_json(revision_key: &str, text_key: &str, revision: u64, text: &str) -> (r: Vec<u8>)
    ensures
        r@ == preview_request(revision_key@, text_key@, revision, text@),
{
    let mut fields = serde_json::Map::new();
    fields.insert(revision_key.to_owned(), serde_json::Value::from(revision));
    fields.insert(text_key.to_owned(), serde_json::Value::from(text));
    serde_json::to_vec(&serde_json::Value::Object(fields)).unwrap_or_default()
}

/// The views of an optional text.
pub open spec fn opt_text(o: Option<String>) -> Option<Seq<char>> {
    match o {
        Some(s) => Some(s@),
        None => None,
    }
}

/// `serde_json::from_slice::<Value>`, then `Value::get` of the two members,
/// with `Value::as_u64` and `Value::as_str`. Claimed: the fields are the
/// named ones.
#[verifier::external_body]
fn response_fields(revision_key: &str, message_key: &str, raw: &[u8]) -> (r: Option<(Option<u64>, Option<String>)>)
    ensures
        match r {
            Some(f) => preview_response(revision_key@, message_key@, raw@) == Some((f.0, opt_text(f.1))),
            None => preview_response(revision_key@, message_key@, raw@) is None,
        },
{
    let value: serde_json::Value = serde_json::from_slice(raw).ok()?;
    let revision = match value.get(revision_key) {
        Some(v) => v.as_u64(),
        None => None,
    };
    let message = match value.get(message_key) {
        Some(v) => v.as_str().map(str::to_owned),
        None => None,
    };
    Some((revision, message))
}

/// The status while no client runs.
pub open spec fn stopped_status() -> Seq<char> {
    "Prévia nativa parada"@
}

/// The status once the client was started.
pub open spec fn started_status() -> Seq<char> {
    "Cliente iniciado; aguardando integração…"@
}

/// The status once revision `r` was handed to the engine.
pub open spec fn sent_status(r: nat) -> Seq<char> {
    "Revisão "@ + decimal(r) + " enviada; aguardando motor"@
}

/// The status once the client ended, with how it ended.
pub open spec fn exit_status(description: Seq<char>) -> Seq<char> {
    "Cliente encerrado: "@ + description
}

/// The error of a request while no preview session runs.
pub open spec fn no_session_error() -> Seq<char> {
    "Inicie a prévia nativa."@
}

/// The status after a reply: a reply to the current revision shows its
/// message (or a default text); any other reply leaves the status as it was.
pub open spec fn reply_status(
    current: Seq<char>,
    revision: u64,
    reply: Option<(Option<u64>, Option<Seq<char>>)>,
) -> Seq<char> {
    match reply {
        Some(fields) => if fields.0 == Some(revision) {
            match fields.1 {
                Some(m) => m,
                None => "Resposta recebida"@,
            }
        } else {
            current
        },
        None => current,
    }
}

/// The status and revision counter of the preview exchange.
pub struct PreviewLink {
    pub status: String,
    pub revision: u64,
}

impl PreviewLink {
    /// No client, no revision sent.
    pub fn new() -> (r: PreviewLink)
        ensures
            r.status@ == stopped_status(),
            r.revision == 0,
    {
        PreviewLink { status: String::from_str("Prévia nativa parada"), revision: 0 }
    }

    /// The client was started.
    pub fn started(&mut self)
        ensures
            final(self).status@ == started_status(),
            final(self).revision == old(self).revision,
    {
        self.status = String::from_str("Cliente iniciado; aguardando integração…");
    }

    /// The client was stopped.
    pub fn stopped(&mut self)
        ensures
            final(self).status@ == stopped_status(),
            final(self).revision == old(self).revision,
    {
        self.status = String::from_str("Prévia nativa parada");
    }

    /// The client ended; `description` says how.
    pub fn exited(&mut self, description: &str)
        ensures
            final(self).status@ == exit_status(description@),
            final(self).revision == old(self).revision,
    {
        let mut s = chars_of("Cliente encerrado: ");
        let d = chars_of(description);
        let mut i: usize = 0;
        let ghost s0 = s@;
        while i < d.len()
            invariant
                i <= d@.len(),
                s0 == "Cliente encerrado: "@,
                s@ == s0 + d@.subrange(0, i as int),
            decreases d.len() - i,
        {
            s.push(d[i]);
            i = i + 1;
            proof {
                assert(s@ =~= s0 + d@.subrange(0, i as int));
            }
        }
        proof {
            assert(d@.subrange(0, d@.len() as int) =~= d@);
        }
        self.status = string_of(s.as_slice());
    }

    /// A request for the text: with a session, the next revision and the JSON
    /// bytes that carry it; without one, the error and no change.
    pub fn request(&mut self, active: bool, text: &str) -> (r: Result<Vec<u8>, String>)
        requires
            old(self).revision < u64::MAX,
        ensures
            active ==> r is Ok && final(self).revision == old(self).revision + 1 && r->Ok_0@
                == preview_request("revision"@, "text"@, final(self).revision, text@),
            !active ==> r is Err && r->Err_0@ == no_session_error() && final(self).revision
                == old(self).revision,
            final(self).status == old(self).status,
    {
        if !active {
            return Err(String::from_str("Inicie a prévia nativa."));
        }
        self.revision = self.revision + 1;
        Ok(request_json("revision", "text", self.revision, text))
    }

    /// The request of the current revision was handed over.
    pub fn sent(&mut self)
        ensures
            final(self).status@ == sent_status(old(self).revision as nat),
            final(self).revision == old(self).revision,
    {
        let mut s = chars_of("Revisão ");
        push_decimal(&mut s, self.revision);
        let tail = chars_of(" enviada; aguardando motor");
        let ghost s0 = s@;
        let mut i: usize = 0;
        while i < tail.len()
            invariant
                i <= tail@.len(),
                s@ == s0 + tail@.subrange(0, i as int),
            decreases tail.len() - i,
        {
            s.push(tail[i]);
            i = i + 1;
            proof {
                assert(s@ =~= s0 + tail@.subrange(0, i as int));
            }
        }
        proof {
            assert(tail@.subrange(0, tail@.len() as int) =~= tail@);
        }
        self.status = string_of(s.as_slice());
    }

    /// Takes a decoded reply (see [`reply_status`]).
    pub fn reply(&mut self, fields: Option<(Option<u64>, Option<String>)>)
        ensures
            final(self).status@ == reply_status(
                old(self).status@,
                old(self).revision,
                match fields {
                    Some(f) => Some((f.0, opt_text(f.1))),
                    None => None,
                },
            ),
            final(self).revision == old(self).revision,
    {
        match fields {
            Some((revision, message)) => {
                if revision == Some(self.revision) {
                    match message {
                        Some(m) => {
                            self.status = m;
                        },
                        None => {
                            self.status = String::from_str("Resposta recebida");
                        },
                    }
                }
            },
            None => {},
        }
    }

    /// Takes the bytes of a reply file.
    pub fn receive(&mut self, raw: &[u8])
        ensures
            final(self).status@ == reply_status(
                old(self).status@,
                old(self).revision,
                preview_response("revision"@, "message"@, raw@),
            ),
            final(self).revision == old(self).revision,
    {
        let fields = response_fields("revision", "message", raw);
        self.reply(fields);
    }
}

} // verus!
