//! The three JSON messages of the in-band handshake.
//!
//! An `OfferManifest` (`{"files":[...]}`) opens the session, a selection
//! reply (`{"files":{id:token,...}}`) answers it, and a `FileHeader`
//! (`{"id":...,"token":...}`) precedes each file body. All three are written
//! in one canonical compact form — no whitespace, fields in a fixed order —
//! and the parsers accept exactly that form.

use vstd::prelude::*;
use vstd::seq_lib::lemma_concat_associative;
use crate::wire::{
    BACKSLASH, COLON, COMMA, lemma_jstr_sound, lemma_lit_sound, LBRACE, LBRACKET, QUOTE, RBRACE, RBRACKET, dec_of, esc, is_short_escape_mark,
    jstr, lemma_digit_prefix_all, lemma_take_dec_of, lemma_take_esc, lemma_take_jstr_of,
    lemma_take_lit_of, parse_dec, parse_jstr, push_dec, push_jstr, take_dec, take_jstr, take_lit,
    take_str_body,
};

verus! {

/// Metadata for one offered file, as the host creates it and as it is
/// carried verbatim in the handshake. Strings are raw bytes as they stand on
/// the wire.
pub struct FileDescriptor {
    pub id: Vec<u8>,
    pub file_name: Vec<u8>,
    pub size: u64,
    pub file_type: Vec<u8>,
    pub sha256: Option<Vec<u8>>,
    pub preview: Option<Vec<u8>>,
    pub metadata: Option<Vec<(Vec<u8>, Vec<u8>)>>,
}

/// The mathematical shadow of a `FileDescriptor`.
#[verifier::ext_equal]
pub ghost struct FileMeta {
    pub id: Seq<u8>,
    pub file_name: Seq<u8>,
    pub size: u64,
    pub file_type: Seq<u8>,
    pub sha256: Option<Seq<u8>>,
    pub preview: Option<Seq<u8>>,
    pub metadata: Option<Seq<(Seq<u8>, Seq<u8>)>>,
}

pub open spec fn pair_views(p: (Vec<u8>, Vec<u8>)) -> (Seq<u8>, Seq<u8>) {
    (p.0@, p.1@)
}

impl View for FileDescriptor {
    type V = FileMeta;

    open spec fn view(&self) -> FileMeta {
        FileMeta {
            id: self.id@,
            file_name: self.file_name@,
            size: self.size,
            file_type: self.file_type@,
            sha256: match self.sha256 {
                Some(ref v) => Some(v@),
                None => None,
            },
            preview: match self.preview {
                Some(ref v) => Some(v@),
                None => None,
            },
            metadata: match self.metadata {
                Some(ref m) => Some(m@.map_values(|p: (Vec<u8>, Vec<u8>)| pair_views(p))),
                None => None,
            },
        }
    }
}

/// A file header as parsed off the wire: `{id, token}`.
pub struct FileHeader {
    pub id: Vec<u8>,
    pub token: Vec<u8>,
}

// The fixed byte strings of the canonical encoding (ASCII).
pub open spec fn lit_null() -> Seq<u8> {
    seq![110, 117, 108, 108]  // null
}

pub open spec fn lit_hdr_id() -> Seq<u8> {
    seq![LBRACE, QUOTE, 105, 100, QUOTE, COLON]  // {"id":
}

pub open spec fn lit_hdr_token() -> Seq<u8> {
    seq![COMMA, QUOTE, 116, 111, 107, 101, 110, QUOTE, COLON]  // ,"token":
}

pub open spec fn lit_files_obj() -> Seq<u8> {
    seq![LBRACE, QUOTE, 102, 105, 108, 101, 115, QUOTE, COLON, LBRACE]  // {"files":{
}

pub open spec fn lit_files_arr() -> Seq<u8> {
    seq![LBRACE, QUOTE, 102, 105, 108, 101, 115, QUOTE, COLON, LBRACKET]  // {"files":[
}

pub open spec fn lit_fname() -> Seq<u8> {
    seq![COMMA, QUOTE, 102, 105, 108, 101, 78, 97, 109, 101, QUOTE, COLON]  // ,"fileName":
}

pub open spec fn lit_size() -> Seq<u8> {
    seq![COMMA, QUOTE, 115, 105, 122, 101, QUOTE, COLON]  // ,"size":
}

pub open spec fn lit_ftype() -> Seq<u8> {
    seq![COMMA, QUOTE, 102, 105, 108, 101, 84, 121, 112, 101, QUOTE, COLON]  // ,"fileType":
}

pub open spec fn lit_sha() -> Seq<u8> {
    seq![COMMA, QUOTE, 115, 104, 97, 50, 53, 54, QUOTE, COLON]  // ,"sha256":
}

pub open spec fn lit_preview() -> Seq<u8> {
    seq![COMMA, QUOTE, 112, 114, 101, 118, 105, 101, 119, QUOTE, COLON]  // ,"preview":
}

pub open spec fn lit_meta() -> Seq<u8> {
    seq![COMMA, QUOTE, 109, 101, 116, 97, 100, 97, 116, 97, QUOTE, COLON]  // ,"metadata":
}

// ---- canonical encodings ----

/// `{"id":<id>,"token":<token>}`
pub open spec fn header_json(id: Seq<u8>, token: Seq<u8>) -> Seq<u8> {
    lit_hdr_id() + jstr(id) + lit_hdr_token() + jstr(token) + seq![RBRACE]
}

pub open spec fn pair_json(k: Seq<u8>, v: Seq<u8>) -> Seq<u8> {
    jstr(k) + seq![COLON] + jstr(v)
}

pub open spec fn pairs_tail_json(ps: Seq<(Seq<u8>, Seq<u8>)>) -> Seq<u8>
    decreases ps.len(),
{
    if ps.len() == 0 {
        Seq::empty()
    } else {
        seq![COMMA] + pair_json(ps[0].0, ps[0].1) + pairs_tail_json(ps.skip(1))
    }
}

/// The members of a string-to-string object, comma separated.
pub open spec fn pairs_body_json(ps: Seq<(Seq<u8>, Seq<u8>)>) -> Seq<u8> {
    if ps.len() == 0 {
        Seq::empty()
    } else {
        pair_json(ps[0].0, ps[0].1) + pairs_tail_json(ps.skip(1))
    }
}

/// `{"files":{<id>:<token>,...}}` — the selection reply.
pub open spec fn reply_json(ps: Seq<(Seq<u8>, Seq<u8>)>) -> Seq<u8> {
    lit_files_obj() + pairs_body_json(ps) + seq![RBRACE, RBRACE]
}

pub open spec fn opt_jstr(o: Option<Seq<u8>>) -> Seq<u8> {
    match o {
        Some(s) => jstr(s),
        None => lit_null(),
    }
}

pub open spec fn meta_json(o: Option<Seq<(Seq<u8>, Seq<u8>)>>) -> Seq<u8> {
    match o {
        Some(ps) => seq![LBRACE] + pairs_body_json(ps) + seq![RBRACE],
        None => lit_null(),
    }
}

/// The required fields of a file descriptor object.
pub open spec fn fd_front_json(m: FileMeta) -> Seq<u8> {
    lit_hdr_id() + jstr(m.id) + lit_fname() + jstr(m.file_name) + lit_size() + dec_of(
        m.size as nat,
    ) + lit_ftype() + jstr(m.file_type)
}

/// The optional fields and the closing brace of a file descriptor object.
pub open spec fn fd_rest_json(m: FileMeta) -> Seq<u8> {
    lit_sha() + opt_jstr(m.sha256) + lit_preview() + opt_jstr(m.preview) + lit_meta() + meta_json(
        m.metadata,
    ) + seq![RBRACE]
}

/// One file descriptor object.
pub open spec fn fd_json(m: FileMeta) -> Seq<u8> {
    fd_front_json(m) + fd_rest_json(m)
}

pub open spec fn fds_tail_json(fs: Seq<FileMeta>) -> Seq<u8>
    decreases fs.len(),
{
    if fs.len() == 0 {
        Seq::empty()
    } else {
        seq![COMMA] + fd_json(fs[0]) + fds_tail_json(fs.skip(1))
    }
}

pub open spec fn fds_body_json(fs: Seq<FileMeta>) -> Seq<u8> {
    if fs.len() == 0 {
        Seq::empty()
    } else {
        fd_json(fs[0]) + fds_tail_json(fs.skip(1))
    }
}

/// `{"files":[<fd>,...]}` — the offer manifest.
pub open spec fn manifest_json(fs: Seq<FileMeta>) -> Seq<u8> {
    lit_files_arr() + fds_body_json(fs) + seq![RBRACKET, RBRACE]
}

// ---- canonical parsers ----

/// The members of a string-to-string object, entered just after `{`; ends at
/// the matching `}` (consumed).
pub open spec fn obj_pairs_of(s: Seq<u8>) -> Option<(Seq<(Seq<u8>, Seq<u8>)>, Seq<u8>)> {
    if s.len() > 0 && s[0] == RBRACE {
        Some((Seq::empty(), s.skip(1)))
    } else {
        match take_jstr(s) {
            None => None,
            Some((k, s1)) => if s1.len() > 0 && s1[0] == COLON {
                match take_jstr(s1.skip(1)) {
                    None => None,
                    Some((v, s2)) => match obj_tail_of(s2) {
                        None => None,
                        Some((ps, r)) => Some((seq![(k, v)] + ps, r)),
                    },
                }
            } else {
                None
            },
        }
    }
}

/// After one member: either `}` or `,` and another member.
pub open spec fn obj_tail_of(s: Seq<u8>) -> Option<(Seq<(Seq<u8>, Seq<u8>)>, Seq<u8>)>
    decreases s.len(),
    via obj_tail_of_decreases
{
    if s.len() > 0 && s[0] == RBRACE {
        Some((Seq::empty(), s.skip(1)))
    } else if s.len() > 0 && s[0] == COMMA {
        match take_jstr(s.skip(1)) {
            None => None,
            Some((k, s1)) => if s1.len() > 0 && s1[0] == COLON {
                match take_jstr(s1.skip(1)) {
                    None => None,
                    Some((v, s2)) => match obj_tail_of(s2) {
                        None => None,
                        Some((ps, r)) => Some((seq![(k, v)] + ps, r)),
                    },
                }
            } else {
                None
            },
        }
    } else {
        None
    }
}

#[via_fn]
proof fn obj_tail_of_decreases(s: Seq<u8>) {
    if s.len() > 0 && s[0] == COMMA {
        lemma_take_jstr_shrinks(s.skip(1));
        if let Some((k, s1)) = take_jstr(s.skip(1)) {
            if s1.len() > 0 && s1[0] == COLON {
                lemma_take_jstr_shrinks(s1.skip(1));
            }
        }
    }
}

/// `"..."` or `null`.
pub open spec fn opt_str_of(s: Seq<u8>) -> Option<(Option<Seq<u8>>, Seq<u8>)> {
    if s.len() > 0 && s[0] == QUOTE {
        match take_str_body(s.skip(1)) {
            Some((c, r)) => Some((Some(c), r)),
            None => None,
        }
    } else {
        match take_lit(s, lit_null()) {
            Some(r) => Some((None, r)),
            None => None,
        }
    }
}

/// `{...}` (string-to-string members) or `null`.
pub open spec fn meta_of(s: Seq<u8>) -> Option<(Option<Seq<(Seq<u8>, Seq<u8>)>>, Seq<u8>)> {
    if s.len() > 0 && s[0] == LBRACE {
        match obj_pairs_of(s.skip(1)) {
            Some((ps, r)) => Some((Some(ps), r)),
            None => None,
        }
    } else {
        match take_lit(s, lit_null()) {
            Some(r) => Some((None, r)),
            None => None,
        }
    }
}

/// One file descriptor object, fields in canonical order.
pub open spec fn fd_of(s: Seq<u8>) -> Option<(FileMeta, Seq<u8>)> {
    match take_lit(s, lit_hdr_id()) {
        None => None,
        Some(s1) => match take_jstr(s1) {
            None => None,
            Some((id, s2)) => match take_lit(s2, lit_fname()) {
                None => None,
                Some(s3) => match take_jstr(s3) {
                    None => None,
                    Some((file_name, s4)) => match take_lit(s4, lit_size()) {
                        None => None,
                        Some(s5) => match take_dec(s5) {
                            None => None,
                            Some((size, s6)) => match take_lit(s6, lit_ftype()) {
                                None => None,
                                Some(s7) => match take_jstr(s7) {
                                    None => None,
                                    Some((file_type, s8)) => fd_of_rest(
                                        s8,
                                        id,
                                        file_name,
                                        size,
                                        file_type,
                                    ),
                                },
                            },
                        },
                    },
                },
            },
        },
    }
}

/// The optional fields and the closing brace of a file descriptor.
pub open spec fn fd_of_rest(
    s: Seq<u8>,
    id: Seq<u8>,
    file_name: Seq<u8>,
    size: u64,
    file_type: Seq<u8>,
) -> Option<(FileMeta, Seq<u8>)> {
    match take_lit(s, lit_sha()) {
        None => None,
        Some(s9) => match opt_str_of(s9) {
            None => None,
            Some((sha256, s10)) => match take_lit(s10, lit_preview()) {
                None => None,
                Some(s11) => match opt_str_of(s11) {
                    None => None,
                    Some((preview, s12)) => match take_lit(s12, lit_meta()) {
                        None => None,
                        Some(s13) => match meta_of(s13) {
                            None => None,
                            Some((metadata, s14)) => if s14.len() > 0 && s14[0] == RBRACE {
                                Some(
                                    (
                                        FileMeta {
                                            id,
                                            file_name,
                                            size,
                                            file_type,
                                            sha256,
                                            preview,
                                            metadata,
                                        },
                                        s14.skip(1),
                                    ),
                                )
                            } else {
                                None
                            },
                        },
                    },
                },
            },
        },
    }
}

/// The members of the manifest's file array, entered just after `[`; ends at
/// the matching `]` (consumed).
pub open spec fn fds_of(s: Seq<u8>) -> Option<(Seq<FileMeta>, Seq<u8>)> {
    if s.len() > 0 && s[0] == RBRACKET {
        Some((Seq::empty(), s.skip(1)))
    } else {
        match fd_of(s) {
            None => None,
            Some((m, s1)) => match fds_tail_of(s1) {
                None => None,
                Some((fs, r)) => Some((seq![m] + fs, r)),
            },
        }
    }
}

pub open spec fn fds_tail_of(s: Seq<u8>) -> Option<(Seq<FileMeta>, Seq<u8>)>
    decreases s.len(),
    via fds_tail_of_decreases
{
    if s.len() > 0 && s[0] == RBRACKET {
        Some((Seq::empty(), s.skip(1)))
    } else if s.len() > 0 && s[0] == COMMA {
        match fd_of(s.skip(1)) {
            None => None,
            Some((m, s1)) => match fds_tail_of(s1) {
                None => None,
                Some((fs, r)) => Some((seq![m] + fs, r)),
            },
        }
    } else {
        None
    }
}

#[via_fn]
proof fn fds_tail_of_decreases(s: Seq<u8>) {
    if s.len() > 0 && s[0] == COMMA {
        lemma_fd_shrinks(s.skip(1));
    }
}

/// The whole selection reply: the id-to-token pairs, in wire order.
pub open spec fn reply_of(s: Seq<u8>) -> Option<Seq<(Seq<u8>, Seq<u8>)>> {
    match take_lit(s, lit_files_obj()) {
        None => None,
        Some(s1) => match obj_pairs_of(s1) {
            None => None,
            Some((ps, r)) => if r == seq![RBRACE] {
                Some(ps)
            } else {
                None
            },
        },
    }
}

/// The whole offer manifest: the file descriptors, in wire order.
pub open spec fn manifest_of(s: Seq<u8>) -> Option<Seq<FileMeta>> {
    match take_lit(s, lit_files_arr()) {
        None => None,
        Some(s1) => match fds_of(s1) {
            None => None,
            Some((fs, r)) => if r == seq![RBRACE] {
                Some(fs)
            } else {
                None
            },
        },
    }
}

/// The whole file header: id and token.
pub open spec fn header_of(s: Seq<u8>) -> Option<(Seq<u8>, Seq<u8>)> {
    match take_lit(s, lit_hdr_id()) {
        None => None,
        Some(s1) => match take_jstr(s1) {
            None => None,
            Some((id, s2)) => match take_lit(s2, lit_hdr_token()) {
                None => None,
                Some(s3) => match take_jstr(s3) {
                    None => None,
                    Some((token, s4)) => if s4 == seq![RBRACE] {
                        Some((id, token))
                    } else {
                        None
                    },
                },
            },
        },
    }
}

// ---- what each parse step consumes ----

/// A parsed string body always consumes at least its closing quote.
pub proof fn lemma_take_str_body_shrinks(s: Seq<u8>)
    ensures
        take_str_body(s) matches Some(p) ==> p.1.len() < s.len(),
    decreases s.len(),
{
    if s.len() == 0 {
    } else if s[0] == QUOTE {
    } else if s[0] == BACKSLASH {
        if s.len() >= 2 && is_short_escape_mark(s[1]) {
            lemma_take_str_body_shrinks(s.skip(2));
        } else if s.len() >= 6 {
            lemma_take_str_body_shrinks(s.skip(6));
        }
    } else {
        lemma_take_str_body_shrinks(s.skip(1));
    }
}

/// A parsed string consumes at least its two quotes.
pub proof fn lemma_take_jstr_shrinks(s: Seq<u8>)
    ensures
        take_jstr(s) matches Some(p) ==> p.1.len() < s.len() - 1,
{
    if s.len() > 0 && s[0] == QUOTE {
        lemma_take_str_body_shrinks(s.skip(1));
    }
}

/// A parsed number consumes at least one digit.
pub proof fn lemma_take_dec_shrinks(s: Seq<u8>)
    ensures
        take_dec(s) matches Some(p) ==> p.1.len() < s.len(),
{
    lemma_digit_prefix_all(s);
}

/// An optional string consumes at least one byte.
pub proof fn lemma_opt_str_shrinks(s: Seq<u8>)
    ensures
        opt_str_of(s) matches Some(p) ==> p.1.len() < s.len(),
{
    if s.len() > 0 && s[0] == QUOTE {
        lemma_take_str_body_shrinks(s.skip(1));
    }
}

/// A parsed object consumes at least its closing brace.
pub proof fn lemma_obj_tail_shrinks(s: Seq<u8>)
    ensures
        obj_tail_of(s) matches Some(p) ==> p.1.len() < s.len(),
    decreases s.len(),
{
    if s.len() > 0 && s[0] == COMMA {
        lemma_take_jstr_shrinks(s.skip(1));
        if let Some((k, s1)) = take_jstr(s.skip(1)) {
            if s1.len() > 0 && s1[0] == COLON {
                lemma_take_jstr_shrinks(s1.skip(1));
                if let Some((v, s2)) = take_jstr(s1.skip(1)) {
                    lemma_obj_tail_shrinks(s2);
                }
            }
        }
    }
}

pub proof fn lemma_obj_pairs_shrinks(s: Seq<u8>)
    ensures
        obj_pairs_of(s) matches Some(p) ==> p.1.len() < s.len(),
{
    if !(s.len() > 0 && s[0] == RBRACE) {
        lemma_take_jstr_shrinks(s);
        if let Some((k, s1)) = take_jstr(s) {
            if s1.len() > 0 && s1[0] == COLON {
                lemma_take_jstr_shrinks(s1.skip(1));
                if let Some((v, s2)) = take_jstr(s1.skip(1)) {
                    lemma_obj_tail_shrinks(s2);
                }
            }
        }
    }
}

pub proof fn lemma_meta_shrinks(s: Seq<u8>)
    ensures
        meta_of(s) matches Some(p) ==> p.1.len() < s.len(),
{
    if s.len() > 0 && s[0] == LBRACE {
        lemma_obj_pairs_shrinks(s.skip(1));
    }
}

/// A parsed file descriptor consumes at least its braces.
pub proof fn lemma_fd_shrinks(s: Seq<u8>)
    ensures
        fd_of(s) matches Some(p) ==> p.1.len() < s.len(),
{
    if let Some(s1) = take_lit(s, lit_hdr_id()) {
        lemma_take_jstr_shrinks(s1);
        if let Some((id, s2)) = take_jstr(s1) {
            if let Some(s3) = take_lit(s2, lit_fname()) {
                lemma_take_jstr_shrinks(s3);
                if let Some((nm, s4)) = take_jstr(s3) {
                    if let Some(s5) = take_lit(s4, lit_size()) {
                        lemma_take_dec_shrinks(s5);
                        if let Some((sz, s6)) = take_dec(s5) {
                            if let Some(s7) = take_lit(s6, lit_ftype()) {
                                lemma_take_jstr_shrinks(s7);
                                if let Some((ft, s8)) = take_jstr(s7) {
                                    lemma_fd_rest_shrinks(s8, id, nm, sz, ft);
                                }
                            }
                        }
                    }
                }
            }
        }
    }
}

proof fn lemma_fd_rest_shrinks(s: Seq<u8>, id: Seq<u8>, nm: Seq<u8>, sz: u64, ft: Seq<u8>)
    ensures
        fd_of_rest(s, id, nm, sz, ft) matches Some(p) ==> p.1.len() < s.len(),
{
    if let Some(s9) = take_lit(s, lit_sha()) {
        lemma_opt_str_shrinks(s9);
        if let Some((sha, s10)) = opt_str_of(s9) {
            if let Some(s11) = take_lit(s10, lit_preview()) {
                lemma_opt_str_shrinks(s11);
                if let Some((pv, s12)) = opt_str_of(s11) {
                    if let Some(s13) = take_lit(s12, lit_meta()) {
                        lemma_meta_shrinks(s13);
                    }
                }
            }
        }
    }
}

// ---- executable literal builders ----

fn lit_vec_null() -> (r: Vec<u8>)
    ensures
        r@ == lit_null(),
{
    let mut v: Vec<u8> = Vec::new();
    v.push(110);
    v.push(117);
    v.push(108);
    v.push(108);
    proof {
        assert(v@ =~= lit_null());
    }
    v
}

fn lit_vec_hdr_id() -> (r: Vec<u8>)
    ensures
        r@ == lit_hdr_id(),
{
    let mut v: Vec<u8> = Vec::new();
    v.push(LBRACE);
    v.push(QUOTE);
    v.push(105);
    v.push(100);
    v.push(QUOTE);
    v.push(COLON);
    proof {
        assert(v@ =~= lit_hdr_id());
    }
    v
}

fn lit_vec_hdr_token() -> (r: Vec<u8>)
    ensures
        r@ == lit_hdr_token(),
{
    let mut v: Vec<u8> = Vec::new();
    v.push(COMMA);
    v.push(QUOTE);
    v.push(116);
    v.push(111);
    v.push(107);
    v.push(101);
    v.push(110);
    v.push(QUOTE);
    v.push(COLON);
    proof {
        assert(v@ =~= lit_hdr_token());
    }
    v
}

fn lit_vec_files_obj() -> (r: Vec<u8>)
    ensures
        r@ == lit_files_obj(),
{
    let mut v: Vec<u8> = Vec::new();
    v.push(LBRACE);
    v.push(QUOTE);
    v.push(102);
    v.push(105);
    v.push(108);
    v.push(101);
    v.push(115);
    v.push(QUOTE);
    v.push(COLON);
    v.push(LBRACE);
    proof {
        assert(v@ =~= lit_files_obj());
    }
    v
}

fn lit_vec_files_arr() -> (r: Vec<u8>)
    ensures
        r@ == lit_files_arr(),
{
    let mut v: Vec<u8> = Vec::new();
    v.push(LBRACE);
    v.push(QUOTE);
    v.push(102);
    v.push(105);
    v.push(108);
    v.push(101);
    v.push(115);
    v.push(QUOTE);
    v.push(COLON);
    v.push(LBRACKET);
    proof {
        assert(v@ =~= lit_files_arr());
    }
    v
}

fn lit_vec_fname() -> (r: Vec<u8>)
    ensures
        r@ == lit_fname(),
{
    let mut v: Vec<u8> = Vec::new();
    v.push(COMMA);
    v.push(QUOTE);
    v.push(102);
    v.push(105);
    v.push(108);
    v.push(101);
    v.push(78);
    v.push(97);
    v.push(109);
    v.push(101);
    v.push(QUOTE);
    v.push(COLON);
    proof {
        assert(v@ =~= lit_fname());
    }
    v
}

fn lit_vec_size() -> (r: Vec<u8>)
    ensures
        r@ == lit_size(),
{
    let mut v: Vec<u8> = Vec::new();
    v.push(COMMA);
    v.push(QUOTE);
    v.push(115);
    v.push(105);
    v.push(122);
    v.push(101);
    v.push(QUOTE);
    v.push(COLON);
    proof {
        assert(v@ =~= lit_size());
    }
    v
}

fn lit_vec_ftype() -> (r: Vec<u8>)
    ensures
        r@ == lit_ftype(),
{
    let mut v: Vec<u8> = Vec::new();
    v.push(COMMA);
    v.push(QUOTE);
    v.push(102);
    v.push(105);
    v.push(108);
    v.push(101);
    v.push(84);
    v.push(121);
    v.push(112);
    v.push(101);
    v.push(QUOTE);
    v.push(COLON);
    proof {
        assert(v@ =~= lit_ftype());
    }
    v
}

fn lit_vec_sha() -> (r: Vec<u8>)
    ensures
        r@ == lit_sha(),
{
    let mut v: Vec<u8> = Vec::new();
    v.push(COMMA);
    v.push(QUOTE);
    v.push(115);
    v.push(104);
    v.push(97);
    v.push(50);
    v.push(53);
    v.push(54);
    v.push(QUOTE);
    v.push(COLON);
    proof {
        assert(v@ =~= lit_sha());
    }
    v
}

fn lit_vec_preview() -> (r: Vec<u8>)
    ensures
        r@ == lit_preview(),
{
    let mut v: Vec<u8> = Vec::new();
    v.push(COMMA);
    v.push(QUOTE);
    v.push(112);
    v.push(114);
    v.push(101);
    v.push(118);
    v.push(105);
    v.push(101);
    v.push(119);
    v.push(QUOTE);
    v.push(COLON);
    proof {
        assert(v@ =~= lit_preview());
    }
    v
}

fn lit_vec_meta() -> (r: Vec<u8>)
    ensures
        r@ == lit_meta(),
{
    let mut v: Vec<u8> = Vec::new();
    v.push(COMMA);
    v.push(QUOTE);
    v.push(109);
    v.push(101);
    v.push(116);
    v.push(97);
    v.push(100);
    v.push(97);
    v.push(116);
    v.push(97);
    v.push(QUOTE);
    v.push(COLON);
    proof {
        assert(v@ =~= lit_meta());
    }
    v
}

// ---- executable encoders ----

/// Encode one `{id, token}` file header.
pub fn encode_header(id: &Vec<u8>, token: &Vec<u8>) -> (r: Vec<u8>)
    ensures
        r@ == header_json(id@, token@),
{
    let mut out = lit_vec_hdr_id();
    push_jstr(&mut out, id);
    let mut l = lit_vec_hdr_token();
    out.append(&mut l);
    push_jstr(&mut out, token);
    out.push(RBRACE);
    proof {
        assert(out@ =~= header_json(id@, token@));
    }
    out
}

fn push_pairs_tail(out: &mut Vec<u8>, ps: &Vec<(Vec<u8>, Vec<u8>)>, i: usize)
    requires
        i <= ps@.len(),
    ensures
        final(out)@ == old(out)@ + pairs_tail_json(
            ps@.map_values(|p: (Vec<u8>, Vec<u8>)| pair_views(p)).skip(i as int),
        ),
    decreases ps@.len() - i,
{
    let ghost mapped = ps@.map_values(|p: (Vec<u8>, Vec<u8>)| pair_views(p));
    if i == ps.len() {
        proof {
            assert(mapped.skip(i as int) =~= Seq::<(Seq<u8>, Seq<u8>)>::empty());
            assert(out@ =~= old(out)@ + pairs_tail_json(mapped.skip(i as int)));
        }
    } else {
        out.push(COMMA);
        push_jstr(out, &ps[i].0);
        out.push(COLON);
        push_jstr(out, &ps[i].1);
        push_pairs_tail(out, ps, i + 1);
        proof {
            assert(mapped.skip(i as int)[0] == pair_views(ps@[i as int]));
            assert(mapped.skip(i as int).skip(1) =~= mapped.skip(i + 1));
            assert(out@ =~= old(out)@ + pairs_tail_json(mapped.skip(i as int)));
        }
    }
}

fn push_pairs_body(out: &mut Vec<u8>, ps: &Vec<(Vec<u8>, Vec<u8>)>)
    ensures
        final(out)@ == old(out)@ + pairs_body_json(
            ps@.map_values(|p: (Vec<u8>, Vec<u8>)| pair_views(p)),
        ),
{
    let ghost mapped = ps@.map_values(|p: (Vec<u8>, Vec<u8>)| pair_views(p));
    if ps.len() == 0 {
        proof {
            assert(out@ =~= old(out)@ + pairs_body_json(mapped));
        }
    } else {
        push_jstr(out, &ps[0].0);
        out.push(COLON);
        push_jstr(out, &ps[0].1);
        push_pairs_tail(out, ps, 1);
        proof {
            assert(mapped[0] == pair_views(ps@[0]));
            assert(mapped.skip(1) == ps@.map_values(|p: (Vec<u8>, Vec<u8>)| pair_views(p)).skip(
                1,
            ));
            assert(out@ =~= old(out)@ + pairs_body_json(mapped));
        }
    }
}

/// Encode the selection reply from its id-to-token pairs.
pub fn encode_reply(pairs: &Vec<(Vec<u8>, Vec<u8>)>) -> (r: Vec<u8>)
    ensures
        r@ == reply_json(pairs@.map_values(|p: (Vec<u8>, Vec<u8>)| pair_views(p))),
{
    let mut out = lit_vec_files_obj();
    push_pairs_body(&mut out, pairs);
    out.push(RBRACE);
    out.push(RBRACE);
    proof {
        assert(out@ =~= reply_json(pairs@.map_values(|p: (Vec<u8>, Vec<u8>)| pair_views(p))));
    }
    out
}

fn push_fd_front(out: &mut Vec<u8>, f: &FileDescriptor)
    ensures
        final(out)@ == old(out)@ + fd_front_json(f@),
{
    let mut l = lit_vec_hdr_id();
    out.append(&mut l);
    push_jstr(out, &f.id);
    let mut l = lit_vec_fname();
    out.append(&mut l);
    push_jstr(out, &f.file_name);
    let mut l = lit_vec_size();
    out.append(&mut l);
    push_dec(out, f.size);
    let mut l = lit_vec_ftype();
    out.append(&mut l);
    push_jstr(out, &f.file_type);
    proof {
        assert(out@ =~= old(out)@ + fd_front_json(f@));
    }
}

#[verifier::rlimit(100)]
#[verifier::spinoff_prover]
fn push_fd_rest(out: &mut Vec<u8>, f: &FileDescriptor)
    ensures
        final(out)@ == old(out)@ + fd_rest_json(f@),
{
    let mut l = lit_vec_sha();
    out.append(&mut l);
    match &f.sha256 {
        Some(s) => push_jstr(out, s),
        None => {
            let mut l = lit_vec_null();
            out.append(&mut l);
        },
    }
    let mut l = lit_vec_preview();
    out.append(&mut l);
    match &f.preview {
        Some(s) => push_jstr(out, s),
        None => {
            let mut l = lit_vec_null();
            out.append(&mut l);
        },
    }
    proof {
        assert(out@ =~= old(out)@ + (lit_sha() + opt_jstr(f@.sha256) + lit_preview() + opt_jstr(
            f@.preview,
        )));
    }
    let mut l = lit_vec_meta();
    out.append(&mut l);
    match &f.metadata {
        Some(m) => {
            out.push(LBRACE);
            push_pairs_body(out, m);
            out.push(RBRACE);
            proof {
                assert(seq![LBRACE] + pairs_body_json(
                    m@.map_values(|p: (Vec<u8>, Vec<u8>)| pair_views(p)),
                ) + seq![RBRACE] =~= meta_json(f@.metadata));
            }
        },
        None => {
            let mut l = lit_vec_null();
            out.append(&mut l);
        },
    }
    out.push(RBRACE);
    proof {
        assert(out@ =~= old(out)@ + fd_rest_json(f@));
    }
}

fn push_fd(out: &mut Vec<u8>, f: &FileDescriptor)
    ensures
        final(out)@ == old(out)@ + fd_json(f@),
{
    push_fd_front(out, f);
    push_fd_rest(out, f);
    proof {
        assert(out@ =~= old(out)@ + fd_json(f@));
    }
}

fn push_fds_tail(out: &mut Vec<u8>, fs: &Vec<FileDescriptor>, i: usize)
    requires
        i <= fs@.len(),
    ensures
        final(out)@ == old(out)@ + fds_tail_json(
            fs@.map_values(|f: FileDescriptor| f@).skip(i as int),
        ),
    decreases fs@.len() - i,
{
    let ghost mapped = fs@.map_values(|f: FileDescriptor| f@);
    if i == fs.len() {
        proof {
            assert(mapped.skip(i as int) =~= Seq::<FileMeta>::empty());
            assert(out@ =~= old(out)@ + fds_tail_json(mapped.skip(i as int)));
        }
    } else {
        out.push(COMMA);
        push_fd(out, &fs[i]);
        push_fds_tail(out, fs, i + 1);
        proof {
            assert(mapped.skip(i as int)[0] == fs@[i as int]@);
            assert(mapped.skip(i as int).skip(1) =~= mapped.skip(i + 1));
            assert(out@ =~= old(out)@ + fds_tail_json(mapped.skip(i as int)));
        }
    }
}

/// Encode the offer manifest from its file descriptors.
pub fn encode_manifest(files: &Vec<FileDescriptor>) -> (r: Vec<u8>)
    ensures
        r@ == manifest_json(files@.map_values(|f: FileDescriptor| f@)),
{
    let ghost mapped = files@.map_values(|f: FileDescriptor| f@);
    let mut out = lit_vec_files_arr();
    if files.len() > 0 {
        push_fd(&mut out, &files[0]);
        push_fds_tail(&mut out, files, 1);
        proof {
            assert(mapped[0] == files@[0]@);
            assert(mapped.skip(1) == files@.map_values(|f: FileDescriptor| f@).skip(1));
        }
    }
    out.push(RBRACKET);
    out.push(RBRACE);
    proof {
        assert(out@ =~= manifest_json(mapped));
    }
    out
}

// ---- executable parsers ----

fn parse_obj_tail(v: &Vec<u8>, start: usize) -> (r: Option<(Vec<(Vec<u8>, Vec<u8>)>, usize)>)
    requires
        start <= v@.len(),
    ensures
        match r {
            Some(p) => start < p.1 <= v@.len() && obj_tail_of(v@.skip(start as int)) == Some(
                (p.0@.map_values(|q: (Vec<u8>, Vec<u8>)| pair_views(q)), v@.skip(p.1 as int)),
            ),
            None => obj_tail_of(v@.skip(start as int)) is None,
        },
    decreases v@.len() - start,
{
    let ghost s = v@.skip(start as int);
    if start == v.len() {
        return None;
    }
    let b = v[start];
    assert(s[0] == b);
    if b == RBRACE {
        let empty: Vec<(Vec<u8>, Vec<u8>)> = Vec::new();
        proof {
            assert(s.skip(1) =~= v@.skip(start + 1));
            assert(empty@.map_values(|q: (Vec<u8>, Vec<u8>)| pair_views(q)) =~= Seq::<
                (Seq<u8>, Seq<u8>),
            >::empty());
        }
        return Some((empty, start + 1));
    }
    if b != COMMA {
        return None;
    }
    proof {
        assert(s.skip(1) =~= v@.skip(start + 1));
    }
    let (k, e1) = match parse_jstr(v, start + 1) {
        Some(p) => p,
        None => {
            return None;
        },
    };
    if e1 == v.len() || v[e1] != COLON {
        proof {
            if e1 < v@.len() {
                assert(v@.skip(e1 as int)[0] == v@[e1 as int]);
            }
        }
        return None;
    }
    proof {
        assert(v@.skip(e1 as int)[0] == v@[e1 as int]);
        assert(v@.skip(e1 as int).skip(1) =~= v@.skip(e1 + 1));
    }
    let (val, e2) = match parse_jstr(v, e1 + 1) {
        Some(p) => p,
        None => {
            return None;
        },
    };
    match parse_obj_tail(v, e2) {
        Some((mut ps, e3)) => {
            let ghost ps0 = ps@;
            ps.insert(0, (k, val));
            proof {
                assert(ps@.map_values(|q: (Vec<u8>, Vec<u8>)| pair_views(q)) =~= seq![
                    (k@, val@),
                ] + ps0.map_values(|q: (Vec<u8>, Vec<u8>)| pair_views(q)));
            }
            Some((ps, e3))
        },
        None => None,
    }
}

fn parse_obj_pairs(v: &Vec<u8>, start: usize) -> (r: Option<(Vec<(Vec<u8>, Vec<u8>)>, usize)>)
    requires
        start <= v@.len(),
    ensures
        match r {
            Some(p) => start < p.1 <= v@.len() && obj_pairs_of(v@.skip(start as int)) == Some(
                (p.0@.map_values(|q: (Vec<u8>, Vec<u8>)| pair_views(q)), v@.skip(p.1 as int)),
            ),
            None => obj_pairs_of(v@.skip(start as int)) is None,
        },
{
    let ghost s = v@.skip(start as int);
    if start < v.len() && v[start] == RBRACE {
        assert(s[0] == RBRACE);
        let empty: Vec<(Vec<u8>, Vec<u8>)> = Vec::new();
        proof {
            assert(s.skip(1) =~= v@.skip(start + 1));
            assert(empty@.map_values(|q: (Vec<u8>, Vec<u8>)| pair_views(q)) =~= Seq::<
                (Seq<u8>, Seq<u8>),
            >::empty());
        }
        return Some((empty, start + 1));
    }
    proof {
        if s.len() > 0 {
            assert(s[0] == v@[start as int]);
        }
    }
    let (k, e1) = match parse_jstr(v, start) {
        Some(p) => p,
        None => {
            return None;
        },
    };
    if e1 == v.len() || v[e1] != COLON {
        proof {
            if e1 < v@.len() {
                assert(v@.skip(e1 as int)[0] == v@[e1 as int]);
            }
        }
        return None;
    }
    proof {
        assert(v@.skip(e1 as int)[0] == v@[e1 as int]);
        assert(v@.skip(e1 as int).skip(1) =~= v@.skip(e1 + 1));
    }
    let (val, e2) = match parse_jstr(v, e1 + 1) {
        Some(p) => p,
        None => {
            return None;
        },
    };
    match parse_obj_tail(v, e2) {
        Some((mut ps, e3)) => {
            let ghost ps0 = ps@;
            ps.insert(0, (k, val));
            proof {
                assert(ps@.map_values(|q: (Vec<u8>, Vec<u8>)| pair_views(q)) =~= seq![
                    (k@, val@),
                ] + ps0.map_values(|q: (Vec<u8>, Vec<u8>)| pair_views(q)));
            }
            Some((ps, e3))
        },
        None => None,
    }
}

fn parse_opt_str(v: &Vec<u8>, start: usize) -> (r: Option<(Option<Vec<u8>>, usize)>)
    requires
        start <= v@.len(),
    ensures
        match r {
            Some(p) => start < p.1 <= v@.len() && opt_str_of(v@.skip(start as int)) == Some(
                (
                    match p.0 {
                        Some(ref c) => Some(c@),
                        None => None,
                    },
                    v@.skip(p.1 as int),
                ),
            ),
            None => opt_str_of(v@.skip(start as int)) is None,
        },
{
    let ghost s = v@.skip(start as int);
    if start < v.len() && v[start] == QUOTE {
        assert(s[0] == QUOTE);
        proof {
            assert(s.skip(1) =~= v@.skip(start + 1));
        }
        match crate::wire::parse_str_body(v, start + 1) {
            Some((c, end)) => Some((Some(c), end)),
            None => None,
        }
    } else {
        proof {
            if s.len() > 0 {
                assert(s[0] == v@[start as int]);
            }
        }
        let null_lit = lit_vec_null();
        match crate::wire::expect_lit(v, start, &null_lit) {
            Some(j) => Some((None, j)),
            None => None,
        }
    }
}

fn parse_meta(v: &Vec<u8>, start: usize) -> (r: Option<
    (Option<Vec<(Vec<u8>, Vec<u8>)>>, usize),
>)
    requires
        start <= v@.len(),
    ensures
        match r {
            Some(p) => start < p.1 <= v@.len() && meta_of(v@.skip(start as int)) == Some(
                (
                    match p.0 {
                        Some(ref m) => Some(
                            m@.map_values(|q: (Vec<u8>, Vec<u8>)| pair_views(q)),
                        ),
                        None => None,
                    },
                    v@.skip(p.1 as int),
                ),
            ),
            None => meta_of(v@.skip(start as int)) is None,
        },
{
    let ghost s = v@.skip(start as int);
    if start < v.len() && v[start] == LBRACE {
        assert(s[0] == LBRACE);
        proof {
            assert(s.skip(1) =~= v@.skip(start + 1));
        }
        match parse_obj_pairs(v, start + 1) {
            Some((ps, end)) => Some((Some(ps), end)),
            None => None,
        }
    } else {
        proof {
            if s.len() > 0 {
                assert(s[0] == v@[start as int]);
            }
        }
        let null_lit = lit_vec_null();
        match crate::wire::expect_lit(v, start, &null_lit) {
            Some(j) => Some((None, j)),
            None => None,
        }
    }
}

/// Parse one file descriptor object at `start`.
fn parse_fd(v: &Vec<u8>, start: usize) -> (r: Option<(FileDescriptor, usize)>)
    requires
        start <= v@.len(),
    ensures
        match r {
            Some(p) => start < p.1 <= v@.len() && fd_of(v@.skip(start as int)) == Some(
                (p.0@, v@.skip(p.1 as int)),
            ),
            None => fd_of(v@.skip(start as int)) is None,
        },
{
    let l = lit_vec_hdr_id();
    let i1 = match crate::wire::expect_lit(v, start, &l) {
        Some(j) => j,
        None => {
            return None;
        },
    };
    let (id, i2) = match parse_jstr(v, i1) {
        Some(p) => p,
        None => {
            return None;
        },
    };
    let l = lit_vec_fname();
    let i3 = match crate::wire::expect_lit(v, i2, &l) {
        Some(j) => j,
        None => {
            return None;
        },
    };
    let (file_name, i4) = match parse_jstr(v, i3) {
        Some(p) => p,
        None => {
            return None;
        },
    };
    let l = lit_vec_size();
    let i5 = match crate::wire::expect_lit(v, i4, &l) {
        Some(j) => j,
        None => {
            return None;
        },
    };
    let (size, i6) = match parse_dec(v, i5) {
        Some(p) => p,
        None => {
            return None;
        },
    };
    let l = lit_vec_ftype();
    let i7 = match crate::wire::expect_lit(v, i6, &l) {
        Some(j) => j,
        None => {
            return None;
        },
    };
    let (file_type, i8) = match parse_jstr(v, i7) {
        Some(p) => p,
        None => {
            return None;
        },
    };
    parse_fd_rest(v, i8, id, file_name, size, file_type)
}

/// The optional fields and the closing brace of a file descriptor.
fn parse_fd_rest(
    v: &Vec<u8>,
    start: usize,
    id: Vec<u8>,
    file_name: Vec<u8>,
    size: u64,
    file_type: Vec<u8>,
) -> (r: Option<(FileDescriptor, usize)>)
    requires
        start <= v@.len(),
    ensures
        match r {
            Some(p) => start < p.1 <= v@.len() && fd_of_rest(
                v@.skip(start as int),
                id@,
                file_name@,
                size,
                file_type@,
            ) == Some((p.0@, v@.skip(p.1 as int))),
            None => fd_of_rest(v@.skip(start as int), id@, file_name@, size, file_type@) is None,
        },
{
    let l = lit_vec_sha();
    let i9 = match crate::wire::expect_lit(v, start, &l) {
        Some(j) => j,
        None => {
            return None;
        },
    };
    let (sha256, i10) = match parse_opt_str(v, i9) {
        Some(p) => p,
        None => {
            return None;
        },
    };
    let l = lit_vec_preview();
    let i11 = match crate::wire::expect_lit(v, i10, &l) {
        Some(j) => j,
        None => {
            return None;
        },
    };
    let (preview, i12) = match parse_opt_str(v, i11) {
        Some(p) => p,
        None => {
            return None;
        },
    };
    let l = lit_vec_meta();
    let i13 = match crate::wire::expect_lit(v, i12, &l) {
        Some(j) => j,
        None => {
            return None;
        },
    };
    let (metadata, i14) = match parse_meta(v, i13) {
        Some(p) => p,
        None => {
            return None;
        },
    };
    if i14 == v.len() || v[i14] != RBRACE {
        proof {
            if i14 < v@.len() {
                assert(v@.skip(i14 as int)[0] == v@[i14 as int]);
            }
        }
        return None;
    }
    proof {
        assert(v@.skip(i14 as int)[0] == v@[i14 as int]);
        assert(v@.skip(i14 as int).skip(1) =~= v@.skip(i14 + 1));
    }
    let f = FileDescriptor { id, file_name, size, file_type, sha256, preview, metadata };
    proof {
        let spec_parsed = fd_of_rest(v@.skip(start as int), f.id@, f.file_name@, size, f.file_type@);
        assert(spec_parsed matches Some(p) && p.0 =~= f@ && p.1 == v@.skip(i14 + 1));
    }
    Some((f, i14 + 1))
}

fn parse_fds_tail(v: &Vec<u8>, start: usize) -> (r: Option<(Vec<FileDescriptor>, usize)>)
    requires
        start <= v@.len(),
    ensures
        match r {
            Some(p) => start < p.1 <= v@.len() && fds_tail_of(v@.skip(start as int)) == Some(
                (p.0@.map_values(|f: FileDescriptor| f@), v@.skip(p.1 as int)),
            ),
            None => fds_tail_of(v@.skip(start as int)) is None,
        },
    decreases v@.len() - start,
{
    let ghost s = v@.skip(start as int);
    if start == v.len() {
        return None;
    }
    let b = v[start];
    assert(s[0] == b);
    if b == RBRACKET {
        let empty: Vec<FileDescriptor> = Vec::new();
        proof {
            assert(s.skip(1) =~= v@.skip(start + 1));
            assert(empty@.map_values(|f: FileDescriptor| f@) =~= Seq::<FileMeta>::empty());
        }
        return Some((empty, start + 1));
    }
    if b != COMMA {
        return None;
    }
    proof {
        assert(s.skip(1) =~= v@.skip(start + 1));
    }
    let (m, e1) = match parse_fd(v, start + 1) {
        Some(p) => p,
        None => {
            return None;
        },
    };
    match parse_fds_tail(v, e1) {
        Some((mut fs, e2)) => {
            let ghost fs0 = fs@;
            fs.insert(0, m);
            proof {
                assert(fs@.map_values(|f: FileDescriptor| f@) =~= seq![fs@[0]@]
                    + fs0.map_values(|f: FileDescriptor| f@));
            }
            Some((fs, e2))
        },
        None => None,
    }
}

fn parse_fds(v: &Vec<u8>, start: usize) -> (r: Option<(Vec<FileDescriptor>, usize)>)
    requires
        start <= v@.len(),
    ensures
        match r {
            Some(p) => start < p.1 <= v@.len() && fds_of(v@.skip(start as int)) == Some(
                (p.0@.map_values(|f: FileDescriptor| f@), v@.skip(p.1 as int)),
            ),
            None => fds_of(v@.skip(start as int)) is None,
        },
{
    let ghost s = v@.skip(start as int);
    if start < v.len() && v[start] == RBRACKET {
        assert(s[0] == RBRACKET);
        let empty: Vec<FileDescriptor> = Vec::new();
        proof {
            assert(s.skip(1) =~= v@.skip(start + 1));
            assert(empty@.map_values(|f: FileDescriptor| f@) =~= Seq::<FileMeta>::empty());
        }
        return Some((empty, start + 1));
    }
    proof {
        if s.len() > 0 {
            assert(s[0] == v@[start as int]);
        }
    }
    let (m, e1) = match parse_fd(v, start) {
        Some(p) => p,
        None => {
            return None;
        },
    };
    match parse_fds_tail(v, e1) {
        Some((mut fs, e2)) => {
            let ghost fs0 = fs@;
            fs.insert(0, m);
            proof {
                assert(fs@.map_values(|f: FileDescriptor| f@) =~= seq![fs@[0]@]
                    + fs0.map_values(|f: FileDescriptor| f@));
            }
            Some((fs, e2))
        },
        None => None,
    }
}

/// Parse a whole file header frame.
pub fn parse_header(v: &Vec<u8>) -> (r: Option<FileHeader>)
    ensures
        match r {
            Some(h) => header_of(v@) == Some((h.id@, h.token@)),
            None => header_of(v@) is None,
        },
{
    proof {
        assert(v@.skip(0) =~= v@);
    }
    let l = lit_vec_hdr_id();
    let i1 = match crate::wire::expect_lit(v, 0, &l) {
        Some(j) => j,
        None => {
            return None;
        },
    };
    let (id, i2) = match parse_jstr(v, i1) {
        Some(p) => p,
        None => {
            return None;
        },
    };
    let l = lit_vec_hdr_token();
    let i3 = match crate::wire::expect_lit(v, i2, &l) {
        Some(j) => j,
        None => {
            return None;
        },
    };
    let (token, i4) = match parse_jstr(v, i3) {
        Some(p) => p,
        None => {
            return None;
        },
    };
    if v.len() - i4 == 1 && v[i4] == RBRACE {
        proof {
            assert(v@.skip(i4 as int) =~= seq![RBRACE]);
        }
        Some(FileHeader { id, token })
    } else {
        proof {
            assert(seq![RBRACE].len() == 1 && seq![RBRACE][0] == RBRACE);
            assert(v@.skip(i4 as int).len() == v@.len() - i4);
            if i4 < v@.len() {
                assert(v@.skip(i4 as int)[0] == v@[i4 as int]);
            }
            assert(v@.skip(i4 as int) != seq![RBRACE]);
        }
        None
    }
}

/// Parse a whole selection reply payload.
pub fn parse_reply(v: &Vec<u8>) -> (r: Option<Vec<(Vec<u8>, Vec<u8>)>>)
    ensures
        match r {
            Some(ps) => reply_of(v@) == Some(
                ps@.map_values(|q: (Vec<u8>, Vec<u8>)| pair_views(q)),
            ),
            None => reply_of(v@) is None,
        },
{
    proof {
        assert(v@.skip(0) =~= v@);
    }
    let l = lit_vec_files_obj();
    let i1 = match crate::wire::expect_lit(v, 0, &l) {
        Some(j) => j,
        None => {
            return None;
        },
    };
    let (ps, i2) = match parse_obj_pairs(v, i1) {
        Some(p) => p,
        None => {
            return None;
        },
    };
    if v.len() - i2 == 1 && v[i2] == RBRACE {
        proof {
            assert(v@.skip(i2 as int) =~= seq![RBRACE]);
        }
        Some(ps)
    } else {
        proof {
            assert(seq![RBRACE].len() == 1 && seq![RBRACE][0] == RBRACE);
            assert(v@.skip(i2 as int).len() == v@.len() - i2);
            if i2 < v@.len() {
                assert(v@.skip(i2 as int)[0] == v@[i2 as int]);
            }
            assert(v@.skip(i2 as int) != seq![RBRACE]);
        }
        None
    }
}

/// Parse a whole offer manifest payload.
pub fn parse_manifest(v: &Vec<u8>) -> (r: Option<Vec<FileDescriptor>>)
    ensures
        match r {
            Some(fs) => manifest_of(v@) == Some(fs@.map_values(|f: FileDescriptor| f@)),
            None => manifest_of(v@) is None,
        },
{
    proof {
        assert(v@.skip(0) =~= v@);
    }
    let l = lit_vec_files_arr();
    let i1 = match crate::wire::expect_lit(v, 0, &l) {
        Some(j) => j,
        None => {
            return None;
        },
    };
    let (fs, i2) = match parse_fds(v, i1) {
        Some(p) => p,
        None => {
            return None;
        },
    };
    if v.len() - i2 == 1 && v[i2] == RBRACE {
        proof {
            assert(v@.skip(i2 as int) =~= seq![RBRACE]);
        }
        Some(fs)
    } else {
        proof {
            assert(seq![RBRACE].len() == 1 && seq![RBRACE][0] == RBRACE);
            assert(v@.skip(i2 as int).len() == v@.len() - i2);
            if i2 < v@.len() {
                assert(v@.skip(i2 as int)[0] == v@[i2 as int]);
            }
            assert(v@.skip(i2 as int) != seq![RBRACE]);
        }
        None
    }
}

// ---- round trips: what one peer encodes, the other parses back ----

/// Round trip for one file header.
pub proof fn lemma_header_round_trip(id: Seq<u8>, token: Seq<u8>)
    ensures
        header_of(header_json(id, token)) == Some((id, token)),
{
    let s = header_json(id, token);
    let r1 = jstr(id) + (lit_hdr_token() + (jstr(token) + seq![RBRACE]));
    assert(s =~= lit_hdr_id() + r1);
    lemma_take_lit_of(lit_hdr_id(), r1);
    let r2 = lit_hdr_token() + (jstr(token) + seq![RBRACE]);
    lemma_take_jstr_of(id, r2);
    let r3 = jstr(token) + seq![RBRACE];
    lemma_take_lit_of(lit_hdr_token(), r3);
    lemma_take_jstr_of(token, seq![RBRACE]);
}

/// Round trip for the members of a string-to-string object, after the first.
proof fn lemma_obj_tail_round(ps: Seq<(Seq<u8>, Seq<u8>)>, rest: Seq<u8>)
    ensures
        obj_tail_of(pairs_tail_json(ps) + seq![RBRACE] + rest) == Some((ps, rest)),
    decreases ps.len(),
{
    let s = pairs_tail_json(ps) + seq![RBRACE] + rest;
    if ps.len() == 0 {
        assert(s =~= seq![RBRACE] + rest);
        assert(s[0] == RBRACE);
        assert(s.skip(1) =~= rest);
        assert(Seq::<(Seq<u8>, Seq<u8>)>::empty() =~= ps);
    } else {
        let k = ps[0].0;
        let v = ps[0].1;
        let tail = pairs_tail_json(ps.skip(1));
        let r1 = seq![COLON] + (jstr(v) + (tail + seq![RBRACE] + rest));
        assert(s =~= seq![COMMA] + (jstr(k) + r1));
        assert(s[0] == COMMA);
        assert(s.skip(1) =~= jstr(k) + r1);
        lemma_take_jstr_of(k, r1);
        assert(r1[0] == COLON);
        let r2 = jstr(v) + (tail + seq![RBRACE] + rest);
        assert(r1.skip(1) =~= r2);
        lemma_take_jstr_of(v, tail + seq![RBRACE] + rest);
        lemma_obj_tail_round(ps.skip(1), rest);
        assert(seq![(k, v)] + ps.skip(1) =~= ps);
    }
}

/// Round trip for the members of a string-to-string object.
proof fn lemma_obj_pairs_round(ps: Seq<(Seq<u8>, Seq<u8>)>, rest: Seq<u8>)
    ensures
        obj_pairs_of(pairs_body_json(ps) + seq![RBRACE] + rest) == Some((ps, rest)),
{
    let s = pairs_body_json(ps) + seq![RBRACE] + rest;
    if ps.len() == 0 {
        assert(s =~= seq![RBRACE] + rest);
        assert(s[0] == RBRACE);
        assert(s.skip(1) =~= rest);
        assert(Seq::<(Seq<u8>, Seq<u8>)>::empty() =~= ps);
    } else {
        let k = ps[0].0;
        let v = ps[0].1;
        let tail = pairs_tail_json(ps.skip(1));
        let r1 = seq![COLON] + (jstr(v) + (tail + seq![RBRACE] + rest));
        assert(s =~= jstr(k) + r1);
        assert(s[0] == QUOTE);
        lemma_take_jstr_of(k, r1);
        assert(r1[0] == COLON);
        let r2 = jstr(v) + (tail + seq![RBRACE] + rest);
        assert(r1.skip(1) =~= r2);
        lemma_take_jstr_of(v, tail + seq![RBRACE] + rest);
        lemma_obj_tail_round(ps.skip(1), rest);
        assert(seq![(k, v)] + ps.skip(1) =~= ps);
    }
}

/// Round trip for the whole selection reply.
pub proof fn lemma_reply_round_trip(ps: Seq<(Seq<u8>, Seq<u8>)>)
    ensures
        reply_of(reply_json(ps)) == Some(ps),
{
    let s = reply_json(ps);
    let r1 = pairs_body_json(ps) + seq![RBRACE] + seq![RBRACE];
    assert(s =~= lit_files_obj() + r1);
    lemma_take_lit_of(lit_files_obj(), r1);
    lemma_obj_pairs_round(ps, seq![RBRACE]);
}

proof fn lemma_opt_str_round(o: Option<Seq<u8>>, rest: Seq<u8>)
    ensures
        opt_str_of(opt_jstr(o) + rest) == Some((o, rest)),
{
    let s = opt_jstr(o) + rest;
    match o {
        Some(c) => {
            assert(s =~= jstr(c) + rest);
            assert(s[0] == QUOTE);
            assert(s.skip(1) =~= esc(c) + seq![QUOTE] + rest);
            lemma_take_esc(c, rest);
        },
        None => {
            assert(s =~= lit_null() + rest);
            assert(s[0] == 110);
            lemma_take_lit_of(lit_null(), rest);
        },
    }
}

proof fn lemma_meta_round(o: Option<Seq<(Seq<u8>, Seq<u8>)>>, rest: Seq<u8>)
    ensures
        meta_of(meta_json(o) + rest) == Some((o, rest)),
{
    let s = meta_json(o) + rest;
    match o {
        Some(ps) => {
            assert(s =~= seq![LBRACE] + (pairs_body_json(ps) + seq![RBRACE] + rest));
            assert(s[0] == LBRACE);
            assert(s.skip(1) =~= pairs_body_json(ps) + seq![RBRACE] + rest);
            lemma_obj_pairs_round(ps, rest);
        },
        None => {
            assert(s =~= lit_null() + rest);
            assert(s[0] == 110);
            lemma_take_lit_of(lit_null(), rest);
        },
    }
}

#[verifier::rlimit(100)]
#[verifier::spinoff_prover]
proof fn lemma_fd_rest_round(m: FileMeta, rest: Seq<u8>)
    ensures
        fd_of_rest(fd_rest_json(m) + rest, m.id, m.file_name, m.size, m.file_type) == Some(
            (m, rest),
        ),
{
    let s = fd_rest_json(m) + rest;
    let r1 = opt_jstr(m.sha256) + (lit_preview() + (opt_jstr(m.preview) + (lit_meta() + (
    meta_json(m.metadata) + (seq![RBRACE] + rest)))));
    assert(s =~= lit_sha() + r1);
    lemma_take_lit_of(lit_sha(), r1);
    let r2 = lit_preview() + (opt_jstr(m.preview) + (lit_meta() + (meta_json(m.metadata) + (seq![
        RBRACE,
    ] + rest))));
    lemma_opt_str_round(m.sha256, r2);
    let r3 = opt_jstr(m.preview) + (lit_meta() + (meta_json(m.metadata) + (seq![RBRACE] + rest)));
    lemma_take_lit_of(lit_preview(), r3);
    let r4 = lit_meta() + (meta_json(m.metadata) + (seq![RBRACE] + rest));
    lemma_opt_str_round(m.preview, r4);
    let r5 = meta_json(m.metadata) + (seq![RBRACE] + rest);
    lemma_take_lit_of(lit_meta(), r5);
    let r6 = seq![RBRACE] + rest;
    lemma_meta_round(m.metadata, r6);
    assert(r6[0] == RBRACE);
    assert(r6.skip(1) =~= rest);
}

/// Round trip for one file descriptor.
proof fn lemma_fd_round(m: FileMeta, rest: Seq<u8>)
    ensures
        fd_of(fd_json(m) + rest) == Some((m, rest)),
{
    let s = fd_json(m) + rest;
    let r1 = jstr(m.id) + (lit_fname() + (jstr(m.file_name) + (lit_size() + (dec_of(
        m.size as nat,
    ) + (lit_ftype() + (jstr(m.file_type) + (fd_rest_json(m) + rest)))))));
    assert(s =~= lit_hdr_id() + r1);
    lemma_take_lit_of(lit_hdr_id(), r1);
    let r2 = lit_fname() + (jstr(m.file_name) + (lit_size() + (dec_of(m.size as nat) + (
    lit_ftype() + (jstr(m.file_type) + (fd_rest_json(m) + rest))))));
    lemma_take_jstr_of(m.id, r2);
    let r3 = jstr(m.file_name) + (lit_size() + (dec_of(m.size as nat) + (lit_ftype() + (jstr(
        m.file_type,
    ) + (fd_rest_json(m) + rest)))));
    lemma_take_lit_of(lit_fname(), r3);
    let r4 = lit_size() + (dec_of(m.size as nat) + (lit_ftype() + (jstr(m.file_type) + (
    fd_rest_json(m) + rest))));
    lemma_take_jstr_of(m.file_name, r4);
    let r5 = dec_of(m.size as nat) + (lit_ftype() + (jstr(m.file_type) + (fd_rest_json(m)
        + rest)));
    lemma_take_lit_of(lit_size(), r5);
    let r6 = lit_ftype() + (jstr(m.file_type) + (fd_rest_json(m) + rest));
    assert(r6[0] == COMMA && !crate::wire::is_digit(COMMA));
    lemma_take_dec_of(m.size, r6);
    let r7 = jstr(m.file_type) + (fd_rest_json(m) + rest);
    lemma_take_lit_of(lit_ftype(), r7);
    let r8 = fd_rest_json(m) + rest;
    lemma_take_jstr_of(m.file_type, r8);
    lemma_fd_rest_round(m, rest);
}

#[verifier::rlimit(100)]
#[verifier::spinoff_prover]
proof fn lemma_fds_tail_round(fs: Seq<FileMeta>, rest: Seq<u8>)
    ensures
        fds_tail_of(fds_tail_json(fs) + seq![RBRACKET] + rest) == Some((fs, rest)),
    decreases fs.len(),
{
    let s = fds_tail_json(fs) + seq![RBRACKET] + rest;
    if fs.len() == 0 {
        assert(s =~= seq![RBRACKET] + rest);
        assert(s[0] == RBRACKET);
        assert(s.skip(1) =~= rest);
        assert(Seq::<FileMeta>::empty() =~= fs);
    } else {
        let tail = fds_tail_json(fs.skip(1));
        assert(s =~= seq![COMMA] + (fd_json(fs[0]) + (tail + seq![RBRACKET] + rest)));
        assert(s[0] == COMMA);
        assert(s.skip(1) =~= fd_json(fs[0]) + (tail + seq![RBRACKET] + rest));
        lemma_fd_round(fs[0], tail + seq![RBRACKET] + rest);
        lemma_fds_tail_round(fs.skip(1), rest);
        assert(seq![fs[0]] + fs.skip(1) =~= fs);
    }
}

#[verifier::rlimit(100)]
#[verifier::spinoff_prover]
proof fn lemma_fds_round(fs: Seq<FileMeta>, rest: Seq<u8>)
    ensures
        fds_of(fds_body_json(fs) + seq![RBRACKET] + rest) == Some((fs, rest)),
{
    let s = fds_body_json(fs) + seq![RBRACKET] + rest;
    if fs.len() == 0 {
        assert(s =~= seq![RBRACKET] + rest);
        assert(s[0] == RBRACKET);
        assert(s.skip(1) =~= rest);
        assert(Seq::<FileMeta>::empty() =~= fs);
    } else {
        let tail = fds_tail_json(fs.skip(1));
        assert(s =~= fd_json(fs[0]) + (tail + seq![RBRACKET] + rest));
        assert(s[0] == LBRACE);
        lemma_fd_round(fs[0], tail + seq![RBRACKET] + rest);
        lemma_fds_tail_round(fs.skip(1), rest);
        assert(seq![fs[0]] + fs.skip(1) =~= fs);
    }
}

/// Round trip for the whole offer manifest.
pub proof fn lemma_manifest_round_trip(fs: Seq<FileMeta>)
    ensures
        manifest_of(manifest_json(fs)) == Some(fs),
{
    let s = manifest_json(fs);
    let r1 = fds_body_json(fs) + seq![RBRACKET] + seq![RBRACE];
    assert(s =~= lit_files_arr() + r1);
    lemma_take_lit_of(lit_files_arr(), r1);
    lemma_fds_round(fs, seq![RBRACE]);
}

// ---- soundness: a parse that succeeds pins the bytes down completely ----

/// A parsed file header came from exactly its canonical encoding.
pub proof fn lemma_header_sound(s: Seq<u8>)
    ensures
        header_of(s) matches Some(p) ==> s == header_json(p.0, p.1),
{
    lemma_lit_sound(s, lit_hdr_id());
    if let Some(s1) = take_lit(s, lit_hdr_id()) {
        lemma_jstr_sound(s1);
        if let Some((id, s2)) = take_jstr(s1) {
            lemma_lit_sound(s2, lit_hdr_token());
            if let Some(s3) = take_lit(s2, lit_hdr_token()) {
                lemma_jstr_sound(s3);
                if let Some((tok, s4)) = take_jstr(s3) {
                    if s4 == seq![RBRACE] {
                        assert(s =~= header_json(id, tok));
                    }
                }
            }
        }
    }
}

#[verifier::rlimit(100)]
#[verifier::spinoff_prover]
proof fn lemma_obj_tail_sound(s: Seq<u8>)
    ensures
        obj_tail_of(s) matches Some(p) ==> s == pairs_tail_json(p.0) + seq![RBRACE] + p.1,
    decreases s.len(),
{
    if s.len() > 0 && s[0] == RBRACE {
        assert(pairs_tail_json(Seq::<(Seq<u8>, Seq<u8>)>::empty()) =~= Seq::<u8>::empty());
        assert(s =~= pairs_tail_json(Seq::<(Seq<u8>, Seq<u8>)>::empty()) + seq![RBRACE] + s.skip(
            1,
        ));
    } else if s.len() > 0 && s[0] == COMMA {
        lemma_take_jstr_shrinks(s.skip(1));
        lemma_jstr_sound(s.skip(1));
        if let Some((k, s1)) = take_jstr(s.skip(1)) {
            if s1.len() > 0 && s1[0] == COLON {
                lemma_take_jstr_shrinks(s1.skip(1));
                lemma_jstr_sound(s1.skip(1));
                if let Some((v, s2)) = take_jstr(s1.skip(1)) {
                    lemma_obj_tail_sound(s2);
                    if let Some((ps, r)) = obj_tail_of(s2) {
                        let whole = seq![(k, v)] + ps;
                        assert(whole[0] == (k, v));
                        assert(whole.skip(1) =~= ps);
                        assert(s1 =~= seq![COLON] + s1.skip(1));
                        assert(s =~= seq![COMMA] + s.skip(1));
                        let a1 = seq![COMMA];
                        lemma_concat_associative(a1, jstr(k), s1);
                        let a2 = a1 + jstr(k);
                        assert(s == a2 + s1);
                        lemma_concat_associative(a2, seq![COLON], s1.skip(1));
                        let a3 = a2 + seq![COLON];
                        assert(s == a3 + s1.skip(1));
                        lemma_concat_associative(a3, jstr(v), s2);
                        let a4 = a3 + jstr(v);
                        assert(s == a4 + s2);
                        lemma_concat_associative(a4, pairs_tail_json(ps), seq![RBRACE] + r);
                        lemma_concat_associative(
                            a4 + pairs_tail_json(ps),
                            seq![RBRACE],
                            r,
                        );
                        assert(a4 + pairs_tail_json(ps) == pairs_tail_json(whole)) by {
                            assert(seq![COMMA] + pair_json(k, v) =~= a4);
                        }
                        assert(s == pairs_tail_json(whole) + seq![RBRACE] + r);
                    }
                }
            }
        }
    }
}

proof fn lemma_obj_pairs_sound(s: Seq<u8>)
    ensures
        obj_pairs_of(s) matches Some(p) ==> s == pairs_body_json(p.0) + seq![RBRACE] + p.1,
{
    if s.len() > 0 && s[0] == RBRACE {
        assert(pairs_body_json(Seq::<(Seq<u8>, Seq<u8>)>::empty()) =~= Seq::<u8>::empty());
        assert(s =~= pairs_body_json(Seq::<(Seq<u8>, Seq<u8>)>::empty()) + seq![RBRACE] + s.skip(
            1,
        ));
    } else {
        lemma_jstr_sound(s);
        if let Some((k, s1)) = take_jstr(s) {
            if s1.len() > 0 && s1[0] == COLON {
                lemma_jstr_sound(s1.skip(1));
                if let Some((v, s2)) = take_jstr(s1.skip(1)) {
                    lemma_obj_tail_sound(s2);
                    if let Some((ps, r)) = obj_tail_of(s2) {
                        let whole = seq![(k, v)] + ps;
                        assert(whole[0] == (k, v));
                        assert(whole.skip(1) =~= ps);
                        assert(s1 =~= seq![COLON] + s1.skip(1));
                        let a1 = jstr(k);
                        lemma_concat_associative(a1, seq![COLON], s1.skip(1));
                        let a2 = a1 + seq![COLON];
                        assert(s == a2 + s1.skip(1));
                        lemma_concat_associative(a2, jstr(v), s2);
                        let a3 = a2 + jstr(v);
                        assert(s == a3 + s2);
                        lemma_concat_associative(a3, pairs_tail_json(ps), seq![RBRACE] + r);
                        lemma_concat_associative(
                            a3 + pairs_tail_json(ps),
                            seq![RBRACE],
                            r,
                        );
                        assert(a3 + pairs_tail_json(ps) == pairs_body_json(whole)) by {
                            assert(pair_json(k, v) =~= a3);
                        }
                        assert(s == pairs_body_json(whole) + seq![RBRACE] + r);
                    }
                }
            }
        }
    }
}

/// A parsed selection reply came from exactly its canonical encoding.
pub proof fn lemma_reply_sound(s: Seq<u8>)
    ensures
        reply_of(s) matches Some(ps) ==> s == reply_json(ps),
{
    lemma_lit_sound(s, lit_files_obj());
    if let Some(s1) = take_lit(s, lit_files_obj()) {
        lemma_obj_pairs_sound(s1);
        if let Some((ps, r)) = obj_pairs_of(s1) {
            if r == seq![RBRACE] {
                assert(s =~= reply_json(ps));
            }
        }
    }
}

proof fn lemma_opt_str_sound(s: Seq<u8>)
    ensures
        opt_str_of(s) matches Some(p) ==> s == opt_jstr(p.0) + p.1,
{
    if s.len() > 0 && s[0] == QUOTE {
        crate::wire::lemma_str_body_sound(s.skip(1));
        if let Some((c, r)) = take_str_body(s.skip(1)) {
            assert(s =~= seq![QUOTE] + s.skip(1));
            assert(s =~= jstr(c) + r);
        }
    } else {
        lemma_lit_sound(s, lit_null());
    }
}

proof fn lemma_meta_sound(s: Seq<u8>)
    ensures
        meta_of(s) matches Some(p) ==> s == meta_json(p.0) + p.1,
{
    if s.len() > 0 && s[0] == LBRACE {
        lemma_obj_pairs_sound(s.skip(1));
        if let Some((ps, r)) = obj_pairs_of(s.skip(1)) {
            assert(s =~= seq![LBRACE] + s.skip(1));
            assert(s =~= meta_json(Some(ps)) + r);
        }
    } else {
        lemma_lit_sound(s, lit_null());
    }
}

#[verifier::rlimit(100)]
#[verifier::spinoff_prover]
proof fn lemma_fd_rest_sound(s: Seq<u8>, id: Seq<u8>, nm: Seq<u8>, sz: u64, ft: Seq<u8>)
    ensures
        fd_of_rest(s, id, nm, sz, ft) matches Some(p) ==> p.0.id == id && p.0.file_name == nm
            && p.0.size == sz && p.0.file_type == ft && s == fd_rest_json(p.0) + p.1,
{
    lemma_lit_sound(s, lit_sha());
    if let Some(s9) = take_lit(s, lit_sha()) {
        lemma_opt_str_sound(s9);
        if let Some((sha, s10)) = opt_str_of(s9) {
            lemma_lit_sound(s10, lit_preview());
            if let Some(s11) = take_lit(s10, lit_preview()) {
                lemma_opt_str_sound(s11);
                if let Some((pv, s12)) = opt_str_of(s11) {
                    lemma_lit_sound(s12, lit_meta());
                    if let Some(s13) = take_lit(s12, lit_meta()) {
                        lemma_meta_sound(s13);
                        if let Some((md, s14)) = meta_of(s13) {
                            if s14.len() > 0 && s14[0] == RBRACE {
                                let m = FileMeta {
                                    id,
                                    file_name: nm,
                                    size: sz,
                                    file_type: ft,
                                    sha256: sha,
                                    preview: pv,
                                    metadata: md,
                                };
                                let rest = s14.skip(1);
                                assert(s14 =~= seq![RBRACE] + rest);
                                // regroup step by step: s is the left-associated
                                // canonical encoding followed by the rest
                                let a1 = lit_sha();
                                lemma_concat_associative(a1, opt_jstr(sha), s10);
                                let a2 = a1 + opt_jstr(sha);
                                assert(s == a2 + s10);
                                lemma_concat_associative(a2, lit_preview(), s11);
                                let a3 = a2 + lit_preview();
                                assert(s == a3 + s11);
                                lemma_concat_associative(a3, opt_jstr(pv), s12);
                                let a4 = a3 + opt_jstr(pv);
                                assert(s == a4 + s12);
                                lemma_concat_associative(a4, lit_meta(), s13);
                                let a5 = a4 + lit_meta();
                                assert(s == a5 + s13);
                                lemma_concat_associative(a5, meta_json(md), s14);
                                let a6 = a5 + meta_json(md);
                                assert(s == a6 + s14);
                                lemma_concat_associative(a6, seq![RBRACE], rest);
                                assert(s == fd_rest_json(m) + rest);
                            }
                        }
                    }
                }
            }
        }
    }
}

/// A parsed file descriptor came from exactly its canonical encoding.
#[verifier::rlimit(100)]
#[verifier::spinoff_prover]
proof fn lemma_fd_sound(s: Seq<u8>)
    ensures
        fd_of(s) matches Some(p) ==> s == fd_json(p.0) + p.1,
{
    lemma_lit_sound(s, lit_hdr_id());
    if let Some(s1) = take_lit(s, lit_hdr_id()) {
        lemma_jstr_sound(s1);
        if let Some((id, s2)) = take_jstr(s1) {
            lemma_lit_sound(s2, lit_fname());
            if let Some(s3) = take_lit(s2, lit_fname()) {
                lemma_jstr_sound(s3);
                if let Some((nm, s4)) = take_jstr(s3) {
                    lemma_lit_sound(s4, lit_size());
                    if let Some(s5) = take_lit(s4, lit_size()) {
                        crate::wire::lemma_dec_sound(s5);
                        if let Some((sz, s6)) = take_dec(s5) {
                            lemma_lit_sound(s6, lit_ftype());
                            if let Some(s7) = take_lit(s6, lit_ftype()) {
                                lemma_jstr_sound(s7);
                                if let Some((ft, s8)) = take_jstr(s7) {
                                    lemma_fd_rest_sound(s8, id, nm, sz, ft);
                                    if let Some((m, r)) = fd_of_rest(s8, id, nm, sz, ft) {
                                        let a1 = lit_hdr_id();
                                        lemma_concat_associative(a1, jstr(id), s2);
                                        let a2 = a1 + jstr(id);
                                        assert(s == a2 + s2);
                                        lemma_concat_associative(a2, lit_fname(), s3);
                                        let a3 = a2 + lit_fname();
                                        assert(s == a3 + s3);
                                        lemma_concat_associative(a3, jstr(nm), s4);
                                        let a4 = a3 + jstr(nm);
                                        assert(s == a4 + s4);
                                        lemma_concat_associative(a4, lit_size(), s5);
                                        let a5 = a4 + lit_size();
                                        assert(s == a5 + s5);
                                        lemma_concat_associative(a5, dec_of(sz as nat), s6);
                                        let a6 = a5 + dec_of(sz as nat);
                                        assert(s == a6 + s6);
                                        lemma_concat_associative(a6, lit_ftype(), s7);
                                        let a7 = a6 + lit_ftype();
                                        assert(s == a7 + s7);
                                        lemma_concat_associative(a7, jstr(ft), s8);
                                        let a8 = a7 + jstr(ft);
                                        assert(s == a8 + s8);
                                        assert(a8 == fd_front_json(m));
                                        lemma_concat_associative(a8, fd_rest_json(m), r);
                                        assert(s == fd_json(m) + r);
                                    }
                                }
                            }
                        }
                    }
                }
            }
        }
    }
}

/// Gluing one parsed descriptor onto a parsed tail of the file array.
proof fn lemma_fds_cons_glue(s: Seq<u8>, m: FileMeta, ms: Seq<FileMeta>, s1: Seq<u8>, r: Seq<u8>)
    requires
        s == fd_json(m) + s1,
        s1 == fds_tail_json(ms) + seq![RBRACKET] + r,
    ensures
        s == fds_body_json(seq![m] + ms) + seq![RBRACKET] + r,
{
    let whole = seq![m] + ms;
    assert(whole[0] == m);
    assert(whole.skip(1) =~= ms);
    let f = fds_tail_json(ms);
    lemma_concat_associative(fd_json(m), f + seq![RBRACKET], r);
    lemma_concat_associative(fd_json(m), f, seq![RBRACKET]);
    assert(fd_json(m) + f == fds_body_json(whole));
}

/// The same, after a comma.
proof fn lemma_fds_tail_cons_glue(
    s: Seq<u8>,
    m: FileMeta,
    ms: Seq<FileMeta>,
    s1: Seq<u8>,
    r: Seq<u8>,
)
    requires
        s == (seq![COMMA] + fd_json(m)) + s1,
        s1 == fds_tail_json(ms) + seq![RBRACKET] + r,
    ensures
        s == fds_tail_json(seq![m] + ms) + seq![RBRACKET] + r,
{
    let whole = seq![m] + ms;
    assert(whole[0] == m);
    assert(whole.skip(1) =~= ms);
    let a = seq![COMMA] + fd_json(m);
    let f = fds_tail_json(ms);
    lemma_concat_associative(a, f + seq![RBRACKET], r);
    lemma_concat_associative(a, f, seq![RBRACKET]);
    assert(a + f == fds_tail_json(whole));
}

proof fn lemma_fds_tail_sound(s: Seq<u8>)
    ensures
        fds_tail_of(s) matches Some(p) ==> s == fds_tail_json(p.0) + seq![RBRACKET] + p.1,
    decreases s.len(),
{
    if s.len() > 0 && s[0] == RBRACKET {
        assert(fds_tail_json(Seq::<FileMeta>::empty()) =~= Seq::<u8>::empty());
        assert(s =~= fds_tail_json(Seq::<FileMeta>::empty()) + seq![RBRACKET] + s.skip(1));
    } else if s.len() > 0 && s[0] == COMMA {
        lemma_fd_shrinks(s.skip(1));
        lemma_fd_sound(s.skip(1));
        if let Some((m, s1)) = fd_of(s.skip(1)) {
            lemma_fds_tail_sound(s1);
            if let Some((ms, r)) = fds_tail_of(s1) {
                assert(s =~= seq![COMMA] + s.skip(1));
                lemma_concat_associative(seq![COMMA], fd_json(m), s1);
                lemma_fds_tail_cons_glue(s, m, ms, s1, r);
            }
        }
    }
}

#[verifier::rlimit(100)]
#[verifier::spinoff_prover]
proof fn lemma_fds_sound(s: Seq<u8>)
    ensures
        fds_of(s) matches Some(p) ==> s == fds_body_json(p.0) + seq![RBRACKET] + p.1,
{
    if s.len() > 0 && s[0] == RBRACKET {
        assert(fds_body_json(Seq::<FileMeta>::empty()) =~= Seq::<u8>::empty());
        assert(s =~= fds_body_json(Seq::<FileMeta>::empty()) + seq![RBRACKET] + s.skip(1));
    } else {
        lemma_fd_sound(s);
        if let Some((m, s1)) = fd_of(s) {
            lemma_fds_tail_sound(s1);
            if let Some((ms, r)) = fds_tail_of(s1) {
                lemma_fds_cons_glue(s, m, ms, s1, r);
            }
        }
    }
}

/// A parsed offer manifest came from exactly its canonical encoding.
#[verifier::rlimit(100)]
#[verifier::spinoff_prover]
pub proof fn lemma_manifest_sound(s: Seq<u8>)
    ensures
        manifest_of(s) matches Some(fs) ==> s == manifest_json(fs),
{
    lemma_lit_sound(s, lit_files_arr());
    if let Some(s1) = take_lit(s, lit_files_arr()) {
        lemma_fds_sound(s1);
        if let Some((fs, r)) = fds_of(s1) {
            if r == seq![RBRACE] {
                assert(s =~= manifest_json(fs));
            }
        }
    }
}

} // verus!
