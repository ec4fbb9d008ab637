//! The text protocol that the TCP clients of a storage node speak.
//!
//! A client writes `put <key>=<value>.` to store a value and `get <key>..`
//! to read one. The node reads the message into a buffer and takes it apart
//! from the end: for a put, the key ends at the last `=` and the value at the
//! last `.` after it; for a get, the key ends at the second-to-last `.`.
//! Everything here works on the UTF-8 bytes of the message.

use vstd::prelude::*;
use vstd::slice::slice_subrange;
use vstd::slice::slice_to_vec;
use vstd::string::StringSliceAdditionalSpecFns;
use vstd::utf8::is_continuation_byte;

verus! {

/// The reply to a put.
pub const PUT_REPLY: &'static str = "put success";

/// The reply to a message that is neither a put nor a get.
pub const INVALID_REPLY: &'static str = "your operation is wrong, only put or get";

/// The bytes `put`, with which a put request starts.
pub open spec fn put_tag() -> Seq<u8> {
    seq!['p' as u8, 'u' as u8, 't' as u8]
}

/// The bytes `get`, with which a get request starts.
pub open spec fn get_tag() -> Seq<u8> {
    seq!['g' as u8, 'e' as u8, 't' as u8]
}

/// `s` begins with `prefix`.
pub open spec fn starts_with(s: Seq<u8>, prefix: Seq<u8>) -> bool {
    prefix.len() <= s.len() && s.subrange(0, prefix.len() as int) == prefix
}

/// `i` is the position of the last occurrence of `d` in `s`.
pub open spec fn is_last_pos(s: Seq<u8>, d: u8, i: int) -> bool {
    &&& 0 <= i < s.len()
    &&& s[i] == d
    &&& forall|j: int| i < j < s.len() ==> s[j] != d
}

/// `s` split around the last occurrence of the byte `d`: what comes before it
/// and what comes after it, or `None` where `d` does not occur.
pub open spec fn rsplit_once(s: Seq<u8>, d: u8) -> Option<(Seq<u8>, Seq<u8>)> {
    if exists|i: int| is_last_pos(s, d, i) {
        let i = choose|i: int| is_last_pos(s, d, i);
        Some((s.subrange(0, i), s.subrange(i + 1, s.len() as int)))
    } else {
        None
    }
}

/// What follows the command word and the byte after it: the message from
/// position 4 on.
pub open spec fn request_args(msg: Seq<u8>) -> Seq<u8> {
    msg.subrange(4, msg.len() as int)
}

/// Position 4 of the message is a character boundary, so that the arguments
/// can be cut off there.
pub open spec fn args_start_on_boundary(msg: Seq<u8>) -> bool {
    msg.len() == 4 || (msg.len() > 4 && !is_continuation_byte(msg[4]))
}

/// The key and the value of a put: the key runs up to the last `=`, the value
/// from there up to the last `.` after it.
pub open spec fn put_fields(msg: Seq<u8>) -> Option<(Seq<u8>, Seq<u8>)> {
    match rsplit_once(request_args(msg), '=' as u8) {
        Some((key, rest)) => match rsplit_once(rest, '.' as u8) {
            Some((value, _)) => Some((key, value)),
            None => None,
        },
        None => None,
    }
}

/// The key of a get: the arguments up to their second-to-last `.`.
pub open spec fn get_field(msg: Seq<u8>) -> Option<Seq<u8>> {
    match rsplit_once(request_args(msg), '.' as u8) {
        Some((head, _)) => match rsplit_once(head, '.' as u8) {
            Some((key, _)) => Some(key),
            None => None,
        },
        None => None,
    }
}

/// The message can be taken apart: it is neither a put nor a get, or it is one
/// whose arguments start on a character boundary and hold the delimiters that
/// its fields need.
pub open spec fn well_formed(msg: Seq<u8>) -> bool {
    if starts_with(msg, put_tag()) {
        args_start_on_boundary(msg) && put_fields(msg) is Some
    } else if starts_with(msg, get_tag()) {
        args_start_on_boundary(msg) && get_field(msg) is Some
    } else {
        true
    }
}

/// A request of a client.
pub enum Request {
    /// Store `value` under `key`.
    Put { key: Vec<u8>, value: Vec<u8> },
    /// Read the value under `key`.
    Get { key: Vec<u8> },
    /// Neither a put nor a get.
    Invalid,
}

/// `r` is what the message `msg` asks for.
pub open spec fn parsed_as(msg: Seq<u8>, r: Request) -> bool {
    match r {
        Request::Put { key, value } => starts_with(msg, put_tag()) && put_fields(msg) == Some(
            (key@, value@),
        ),
        Request::Get { key } => !starts_with(msg, put_tag()) && starts_with(msg, get_tag())
            && get_field(msg) == Some(key@),
        Request::Invalid => !starts_with(msg, put_tag()) && !starts_with(msg, get_tag()),
    }
}

proof fn lemma_rsplit_at(s: Seq<u8>, d: u8, i: int)
    requires
        is_last_pos(s, d, i),
    ensures
        rsplit_once(s, d) == Some((s.subrange(0, i), s.subrange(i + 1, s.len() as int))),
{
    let c = choose|c: int| is_last_pos(s, d, c);
    assert(is_last_pos(s, d, c));
    if c < i {
        assert(s[i] != d);
    }
    if i < c {
        assert(s[c] != d);
    }
}

proof fn lemma_rsplit_none(s: Seq<u8>, d: u8)
    requires
        forall|j: int| 0 <= j < s.len() ==> s[j] != d,
    ensures
        rsplit_once(s, d) is None,
{
    if exists|i: int| is_last_pos(s, d, i) {
        let c = choose|c: int| is_last_pos(s, d, c);
        assert(s[c] == d);
    }
}

/// `msg` starts with the three bytes `a`, `b`, `c`.
fn has_tag(msg: &[u8], a: u8, b: u8, c: u8) -> (r: bool)
    ensures
        r == starts_with(msg@, seq![a, b, c]),
{
    if msg.len() < 3 {
        return false;
    }
    let r = msg[0] == a && msg[1] == b && msg[2] == c;
    assert(r ==> msg@.subrange(0, 3) =~= seq![a, b, c]);
    assert(msg@.subrange(0, 3) == seq![a, b, c] ==> msg@.subrange(0, 3)[0] == a
        && msg@.subrange(0, 3)[1] == b && msg@.subrange(0, 3)[2] == c);
    r
}

/// The position of the last `d` in `s[lo..hi]`, if there is one.
fn rfind(s: &[u8], lo: usize, hi: usize, d: u8) -> (r: Option<usize>)
    requires
        lo <= hi <= s@.len(),
    ensures
        match r {
            Some(p) => lo <= p < hi && is_last_pos(s@.subrange(lo as int, hi as int), d, p - lo),
            None => forall|j: int|
                0 <= j < hi - lo ==> #[trigger] s@.subrange(lo as int, hi as int)[j] != d,
        },
{
    let ghost t = s@.subrange(lo as int, hi as int);
    let mut k: usize = hi;
    while k > lo
        invariant
            lo <= k <= hi <= s@.len(),
            t == s@.subrange(lo as int, hi as int),
            forall|j: int| k - lo <= j < hi - lo ==> #[trigger] t[j] != d,
        decreases k,
    {
        if s[k - 1] == d {
            let p = k - 1;
            assert(t[p - lo] == d);
            return Some(p);
        }
        assert(t[k - 1 - lo] != d);
        k -= 1;
    }
    None
}

/// The bytes `s[lo..hi]` as a vector of their own.
fn copy_range(s: &[u8], lo: usize, hi: usize) -> (r: Vec<u8>)
    requires
        lo <= hi <= s@.len(),
    ensures
        r@ == s@.subrange(lo as int, hi as int),
{
    slice_to_vec(slice_subrange(s, lo, hi))
}

/// Takes the message apart, or returns `None` where it is not well formed.
fn try_parse(msg: &[u8]) -> (r: Option<Request>)
    ensures
        r is None <==> !well_formed(msg@),
        r matches Some(q) ==> parsed_as(msg@, q),
{
    let is_put = has_tag(msg, 'p' as u8, 'u' as u8, 't' as u8);
    let is_get = has_tag(msg, 'g' as u8, 'e' as u8, 't' as u8);
    if !is_put && !is_get {
        return Some(Request::Invalid);
    }
    let n = msg.len();
    if !(n == 4 || (n > 4 && !(0x80 <= msg[4] && msg[4] <= 0xbf))) {
        return None;
    }
    let ghost args = request_args(msg@);
    assert(args =~= msg@.subrange(4, n as int));
    if is_put {
        match rfind(msg, 4, n, '=' as u8) {
            None => {
                proof { lemma_rsplit_none(args, '=' as u8); }
                None
            },
            Some(eq) => {
                proof {
                    lemma_rsplit_at(args, '=' as u8, eq - 4);
                    assert(args.subrange(0, eq - 4) =~= msg@.subrange(4, eq as int));
                    assert(args.subrange(eq - 4 + 1, args.len() as int) =~= msg@.subrange(
                        eq + 1,
                        n as int,
                    ));
                }
                let ghost rest = msg@.subrange(eq + 1, n as int);
                match rfind(msg, eq + 1, n, '.' as u8) {
                    None => {
                        proof { lemma_rsplit_none(rest, '.' as u8); }
                        None
                    },
                    Some(dot) => {
                        proof {
                            lemma_rsplit_at(rest, '.' as u8, dot - (eq + 1));
                            assert(rest.subrange(0, dot - (eq + 1)) =~= msg@.subrange(
                                eq + 1,
                                dot as int,
                            ));
                        }
                        let key = copy_range(msg, 4, eq);
                        let value = copy_range(msg, eq + 1, dot);
                        Some(Request::Put { key, value })
                    },
                }
            },
        }
    } else {
        match rfind(msg, 4, n, '.' as u8) {
            None => {
                proof { lemma_rsplit_none(args, '.' as u8); }
                None
            },
            Some(last) => {
                proof {
                    lemma_rsplit_at(args, '.' as u8, last - 4);
                    assert(args.subrange(0, last - 4) =~= msg@.subrange(4, last as int));
                }
                let ghost head = msg@.subrange(4, last as int);
                match rfind(msg, 4, last, '.' as u8) {
                    None => {
                        proof { lemma_rsplit_none(head, '.' as u8); }
                        None
                    },
                    Some(dot) => {
                        proof {
                            lemma_rsplit_at(head, '.' as u8, dot - 4);
                            assert(head.subrange(0, dot - 4) =~= msg@.subrange(4, dot as int));
                        }
                        let key = copy_range(msg, 4, dot);
                        Some(Request::Get { key })
                    },
                }
            },
        }
    }
}

/// Whether `msg` can be taken apart by [`parse_request`]. A server that
/// receives a message for which this is false gives up on the connection.
pub fn request_is_well_formed(msg: &[u8]) -> (r: bool)
    ensures
        r == well_formed(msg@),
{
    try_parse(msg).is_some()
}

/// Takes a client's message apart into the request that it makes.
pub fn parse_request(msg: &[u8]) -> (r: Request)
    requires
        well_formed(msg@),
    ensures
        parsed_as(msg@, r),
{
    match try_parse(msg) {
        Some(r) => r,
        None => {
            proof { assert(false); }
            Request::Invalid
        },
    }
}


/// The reply to a get of `key` that found `value`: `get <key>=<value>`.
pub open spec fn get_reply_text(key: Seq<u8>, value: Seq<u8>) -> Seq<u8> {
    seq!['g' as u8, 'e' as u8, 't' as u8, ' ' as u8] + key + seq!['=' as u8] + value
}

/// The reply to `req`, where `stored` is what a get found under its key.
pub open spec fn reply_text(req: Request, stored: Seq<u8>) -> Seq<u8> {
    match req {
        Request::Put { .. } => PUT_REPLY.spec_bytes(),
        Request::Get { key } => get_reply_text(key@, stored),
        Request::Invalid => INVALID_REPLY.spec_bytes(),
    }
}

/// Appends the bytes of `src` to `dst`.
fn push_bytes(dst: &mut Vec<u8>, src: &[u8])
    ensures
        final(dst)@ == old(dst)@ + src@,
{
    let mut i: usize = 0;
    while i < src.len()
        invariant
            i <= src@.len(),
            dst@ == old(dst)@ + src@.subrange(0, i as int),
        decreases src@.len() - i,
    {
        dst.push(src[i]);
        i += 1;
        assert(dst@ =~= old(dst)@ + src@.subrange(0, i as int));
    }
    assert(src@.subrange(0, src@.len() as int) =~= src@);
}

/// The bytes that a node sends back for `req`; `stored` is what a get found
/// under its key (the empty string where the key is absent) and is not read
/// for the other requests.
pub fn reply(req: &Request, stored: &[u8]) -> (r: Vec<u8>)
    ensures
        r@ == reply_text(*req, stored@),
        req matches Request::Get { key } ==> {
            &&& r@.len() == 5 + key@.len() + stored@.len()
            &&& r@.subrange(0, 4) == seq!['g' as u8, 'e' as u8, 't' as u8, ' ' as u8]
            &&& r@.subrange(4, 4 + key@.len() as int) == key@
            &&& r@[4 + key@.len() as int] == '=' as u8
            &&& r@.subrange(5 + key@.len() as int, r@.len() as int) == stored@
        },
{
    match req {
        Request::Put { .. } => slice_to_vec(PUT_REPLY.as_bytes()),
        Request::Get { key } => {
            let mut r: Vec<u8> = vec!['g' as u8, 'e' as u8, 't' as u8, ' ' as u8];
            push_bytes(&mut r, key.as_slice());
            r.push('=' as u8);
            push_bytes(&mut r, stored);
            proof {
                let k = key@.len() as int;
                assert(r@.subrange(0, 4) =~= seq!['g' as u8, 'e' as u8, 't' as u8, ' ' as u8]);
                assert(r@.subrange(4, 4 + k) =~= key@);
                assert(r@.subrange(5 + k, r@.len() as int) =~= stored@);
            }
            r
        },
        Request::Invalid => slice_to_vec(INVALID_REPLY.as_bytes()),
    }
}


/// One thing that a node does for a message read from a client connection.
pub enum Action {
    /// Close the connection: the client has closed its side.
    Close,
    /// Write `value` under `key` in the node's own store.
    StoreLocally { key: Vec<u8>, value: Vec<u8> },
    /// Send these bytes back to the client.
    Send(Vec<u8>),
    /// Pass the write of `value` under `key` on to the other members.
    Gossip { key: Vec<u8>, value: Vec<u8> },
    /// Read `key` from the node's own store and send back [`reply`] to the get
    /// of `key` with what was found.
    LookupAndReply { key: Vec<u8> },
}

/// `acts` is what a node does, in order, after a read of `n` bytes that left
/// `msg` in its buffer: close on an empty read; for a put, write locally,
/// then answer, then pass the write on; for a get, look up and answer; for
/// anything else, answer with the rejection.
pub open spec fn planned(n: usize, msg: Seq<u8>, acts: Seq<Action>) -> bool {
    if n == 0 {
        acts.len() == 1 && acts[0] is Close
    } else if starts_with(msg, put_tag()) {
        &&& put_fields(msg) matches Some((k, v))
        &&& acts.len() == 3
        &&& acts[0] matches Action::StoreLocally { key, value } && key@ == k && value@ == v
        &&& acts[1] matches Action::Send(b) && b@ == PUT_REPLY.spec_bytes()
        &&& acts[2] matches Action::Gossip { key, value } && key@ == k && value@ == v
    } else if starts_with(msg, get_tag()) {
        &&& get_field(msg) matches Some(k)
        &&& acts.len() == 1
        &&& acts[0] matches Action::LookupAndReply { key } && key@ == k
    } else {
        &&& acts.len() == 1
        &&& acts[0] matches Action::Send(b) && b@ == INVALID_REPLY.spec_bytes()
    }
}

/// What a node does after reading `n` bytes from a client into a buffer whose
/// text is `msg`, in the order in which it does it. A nonempty read of a
/// message that is not well formed is left out: the node gives up on the
/// connection there.
pub fn connection_step(n: usize, msg: &[u8]) -> (r: Vec<Action>)
    requires
        n == 0 || well_formed(msg@),
    ensures
        planned(n, msg@, r@),
        n > 0 && starts_with(msg@, put_tag()) ==> {
            &&& r@.len() == 3
            &&& r@[0] matches Action::StoreLocally { key: k1, value: v1 }
            &&& r@[2] matches Action::Gossip { key: k2, value: v2 }
            &&& k1@ == k2@
            &&& v1@ == v2@
            &&& put_fields(msg@) == Some((k1@, v1@))
        },
        n > 0 && !starts_with(msg@, put_tag()) && starts_with(msg@, get_tag()) ==> {
            &&& r@.len() == 1
            &&& r@[0] matches Action::LookupAndReply { key }
            &&& get_field(msg@) == Some(key@)
        },
{
    if n == 0 {
        return vec![Action::Close];
    }
    let request = parse_request(msg);
    match request {
        Request::Put { key, value } => {
            let key2 = key.clone();
            let value2 = value.clone();
            let answer = slice_to_vec(PUT_REPLY.as_bytes());
            vec![
                Action::StoreLocally { key, value },
                Action::Send(answer),
                Action::Gossip { key: key2, value: value2 },
            ]
        },
        Request::Get { key } => vec![Action::LookupAndReply { key }],
        Request::Invalid => vec![Action::Send(slice_to_vec(INVALID_REPLY.as_bytes()))],
    }
}

/// `s` holds no byte `d`.
pub open spec fn lacks(s: Seq<u8>, d: u8) -> bool {
    forall|i: int| 0 <= i < s.len() ==> s[i] != d
}

/// The message that a client sends to store `value` under `key`, followed by
/// whatever `tail` the receive buffer still holds after it.
pub open spec fn put_message(key: Seq<u8>, value: Seq<u8>, tail: Seq<u8>) -> Seq<u8> {
    put_tag() + seq![' ' as u8] + key + seq!['=' as u8] + value + seq!['.' as u8] + tail
}

/// A get message for `key`: the key, a `.`, some `mid` bytes, a second `.`,
/// and whatever `tail` the receive buffer still holds after it.
pub open spec fn get_message(key: Seq<u8>, mid: Seq<u8>, tail: Seq<u8>) -> Seq<u8> {
    get_tag() + seq![' ' as u8] + key + seq!['.' as u8] + mid + seq!['.' as u8] + tail
}

/// A put message is taken apart into the key and the value that it was made
/// of, whatever the key holds, as long as the value and what trails the
/// message hold neither `=` nor `.` and the key does not start in the middle
/// of a character.
pub proof fn law_put_message_round_trip(key: Seq<u8>, value: Seq<u8>, tail: Seq<u8>)
    requires
        key.len() == 0 || !is_continuation_byte(key[0]),
        lacks(value, '=' as u8),
        lacks(value, '.' as u8),
        lacks(tail, '=' as u8),
        lacks(tail, '.' as u8),
    ensures
        well_formed(put_message(key, value, tail)),
        starts_with(put_message(key, value, tail), put_tag()),
        put_fields(put_message(key, value, tail)) == Some((key, value)),
{
    let msg = put_message(key, value, tail);
    let args = request_args(msg);
    let k = key.len() as int;
    let v = value.len() as int;
    assert(msg.subrange(0, 3) =~= put_tag());
    assert(args =~= key + seq!['=' as u8] + value + seq!['.' as u8] + tail);
    assert(is_last_pos(args, '=' as u8, k)) by {
        assert forall|j: int| k < j < args.len() implies args[j] != '=' as u8 by {
            if j < k + 1 + v {
                assert(args[j] == value[j - k - 1]);
            } else if j > k + 1 + v {
                assert(args[j] == tail[j - k - 2 - v]);
            }
        }
    }
    lemma_rsplit_at(args, '=' as u8, k);
    let rest = args.subrange(k + 1, args.len() as int);
    assert(rest =~= value + seq!['.' as u8] + tail);
    assert(args.subrange(0, k) =~= key);
    assert(is_last_pos(rest, '.' as u8, v)) by {
        assert forall|j: int| v < j < rest.len() implies rest[j] != '.' as u8 by {
            assert(rest[j] == tail[j - v - 1]);
        }
    }
    lemma_rsplit_at(rest, '.' as u8, v);
    assert(rest.subrange(0, v) =~= value);
}

/// A get message is taken apart into the key that it was made of, whatever
/// the key holds, as long as the bytes between the two final dots and what
/// trails the message hold no `.` and the key does not start in the middle of
/// a character.
pub proof fn law_get_message_round_trip(key: Seq<u8>, mid: Seq<u8>, tail: Seq<u8>)
    requires
        key.len() == 0 || !is_continuation_byte(key[0]),
        lacks(mid, '.' as u8),
        lacks(tail, '.' as u8),
    ensures
        well_formed(get_message(key, mid, tail)),
        !starts_with(get_message(key, mid, tail), put_tag()),
        starts_with(get_message(key, mid, tail), get_tag()),
        get_field(get_message(key, mid, tail)) == Some(key),
{
    let msg = get_message(key, mid, tail);
    let args = request_args(msg);
    let k = key.len() as int;
    let m = mid.len() as int;
    assert(msg.subrange(0, 3) =~= get_tag());
    assert(msg.subrange(0, 3)[0] != put_tag()[0]);
    assert(args =~= key + seq!['.' as u8] + mid + seq!['.' as u8] + tail);
    let last = k + 1 + m;
    assert(is_last_pos(args, '.' as u8, last)) by {
        assert forall|j: int| last < j < args.len() implies args[j] != '.' as u8 by {
            assert(args[j] == tail[j - last - 1]);
        }
    }
    lemma_rsplit_at(args, '.' as u8, last);
    let head = args.subrange(0, last);
    assert(head =~= key + seq!['.' as u8] + mid);
    assert(is_last_pos(head, '.' as u8, k)) by {
        assert forall|j: int| k < j < head.len() implies head[j] != '.' as u8 by {
            assert(head[j] == mid[j - k - 1]);
        }
    }
    lemma_rsplit_at(head, '.' as u8, k);
    assert(head.subrange(0, k) =~= key);
}

/// The reply to a get is the bytes `get `, then the key, then `=`, then the
/// stored bytes unchanged: nothing of the key or of the value is left out,
/// added or altered.
pub proof fn law_get_reply_carries_key_and_value(key: Vec<u8>, stored: Seq<u8>)
    ensures
        ({
            let r = reply_text(Request::Get { key }, stored);
            &&& r.len() == 5 + key@.len() + stored.len()
            &&& r.subrange(0, 4) == seq!['g' as u8, 'e' as u8, 't' as u8, ' ' as u8]
            &&& r.subrange(4, 4 + key@.len() as int) == key@
            &&& r[4 + key@.len() as int] == '=' as u8
            &&& r.subrange(5 + key@.len() as int, r.len() as int) == stored
        }),
{
    let r = reply_text(Request::Get { key }, stored);
    let k = key@.len() as int;
    assert(r.subrange(0, 4) =~= seq!['g' as u8, 'e' as u8, 't' as u8, ' ' as u8]);
    assert(r.subrange(4, 4 + k) =~= key@);
    assert(r.subrange(5 + k, r.len() as int) =~= stored);
}

/// For a put message, a node stores the key and the value that the message
/// was made of, answers `put success`, and passes on exactly the same key and
/// value to the other members.
pub proof fn law_put_step_stores_and_gossips_the_same(
    n: usize,
    key: Seq<u8>,
    value: Seq<u8>,
    tail: Seq<u8>,
    acts: Seq<Action>,
)
    requires
        n > 0,
        key.len() == 0 || !is_continuation_byte(key[0]),
        lacks(value, '=' as u8),
        lacks(value, '.' as u8),
        lacks(tail, '=' as u8),
        lacks(tail, '.' as u8),
        planned(n, put_message(key, value, tail), acts),
    ensures
        acts.len() == 3,
        acts[0] matches Action::StoreLocally { key: k, value: v } && k@ == key && v@ == value,
        acts[1] matches Action::Send(b) && b@ == PUT_REPLY.spec_bytes(),
        acts[2] matches Action::Gossip { key: k, value: v } && k@ == key && v@ == value,
{
    law_put_message_round_trip(key, value, tail);
}

/// For a get message, a node looks up exactly the key that the message was
/// made of, and does nothing else.
pub proof fn law_get_step_looks_up_the_key(
    n: usize,
    key: Seq<u8>,
    mid: Seq<u8>,
    tail: Seq<u8>,
    acts: Seq<Action>,
)
    requires
        n > 0,
        key.len() == 0 || !is_continuation_byte(key[0]),
        lacks(mid, '.' as u8),
        lacks(tail, '.' as u8),
        planned(n, get_message(key, mid, tail), acts),
    ensures
        acts.len() == 1,
        acts[0] matches Action::LookupAndReply { key: k } && k@ == key,
{
    law_get_message_round_trip(key, mid, tail);
}

} // verus!
