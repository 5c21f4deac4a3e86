//! Frame extraction and body parsing for the wire protocol.
//!
//! A frame is `$<body>#`; the body is `timestamp:command:key=value:...`. Bytes
//! arrive in arbitrary chunks, so the accumulator keeps the unfinished tail
//! across reads and yields every complete frame found so far, in order. A body
//! with fewer than two colon-separated parts yields no message; a field
//! without `=` is skipped.

use vstd::prelude::*;
use vstd::seq_lib::*;

use crate::message::{MessageModel, ParsedMessage};
use crate::text::{find_char, lemma_first_index, lemma_no_first_index};

verus! {

/// The character sequence that permissive UTF-8 decoding yields for a byte
/// sequence. Named, not defined: only the trusted decoder below speaks for it.
pub uninterp spec fn lossy(bytes: Seq<u8>) -> Seq<char>;

/// Relies on `String::from_utf8_lossy`: the result is a function of the bytes
/// alone; invalid sequences are replaced, never rejected, and ASCII bytes
/// decode to the identical characters (ASCII is valid UTF-8).
#[verifier::external_body]
fn decode_lossy(bytes: &[u8]) -> (r: String)
    ensures
        r@ == lossy(bytes@),
        (forall|i: int| 0 <= i < bytes@.len() ==> bytes@[i] < 128) ==> (r@.len() == bytes@.len()
            && (forall|i: int| 0 <= i < r@.len() ==> r@[i] as int == bytes@[i] as int)),
{
    String::from_utf8_lossy(bytes).into_owned()
}

/// The parts of `s` delimited by `sep`, in order; `s` itself if `sep` does not
/// occur. Splitting never yields an empty sequence of parts.
pub open spec fn split_on(s: Seq<char>, sep: char) -> Seq<Seq<char>>
    decreases s.len(),
    via split_on_decreases
{
    match s.index_of_first(sep) {
        Some(i) => seq![s.take(i)] + split_on(s.skip(i + 1), sep),
        None => seq![s],
    }
}

#[via_fn]
proof fn split_on_decreases(s: Seq<char>, sep: char) {
    s.index_of_first_ensures(sep);
}

/// The key/value reading of one body part: split at the first `=`, or nothing
/// if there is no `=`.
pub open spec fn field_entry(part: Seq<char>) -> Option<(Seq<char>, Seq<char>)> {
    match part.index_of_first('=') {
        Some(i) => Some((part.take(i), part.skip(i + 1))),
        None => None,
    }
}

/// The field mapping contributed by a sequence of body parts; a later part
/// with the same key overrides an earlier one, a part without `=` is skipped.
pub open spec fn fields_of(parts: Seq<Seq<char>>) -> Map<Seq<char>, Seq<char>>
    decreases parts.len(),
{
    if parts.len() == 0 {
        Map::empty()
    } else {
        match field_entry(parts.last()) {
            Some(kv) => fields_of(parts.drop_last()).insert(kv.0, kv.1),
            None => fields_of(parts.drop_last()),
        }
    }
}

/// The message denoted by one frame body, if any: the first part is the
/// timestamp, the second the command, the rest the fields. A body with fewer
/// than two parts denotes no message.
pub open spec fn body_message(body: Seq<char>) -> Option<MessageModel> {
    let parts = split_on(body, ':');
    if parts.len() < 2 {
        None
    } else {
        Some(
            MessageModel {
                timestamp: parts[0],
                command: parts[1],
                fields: fields_of(parts.skip(2)),
            },
        )
    }
}

/// The bodies of the complete frames in `b`, in order: each frame runs from a
/// `$` to the first `#` after it, markers stripped.
pub open spec fn frame_bodies(b: Seq<char>) -> Seq<Seq<char>>
    decreases b.len(),
    via frame_bodies_decreases
{
    match b.index_of_first('$') {
        None => Seq::empty(),
        Some(s) => {
            let after = b.skip(s + 1);
            match after.index_of_first('#') {
                None => Seq::empty(),
                Some(e) => seq![after.take(e)] + frame_bodies(after.skip(e + 1)),
            }
        },
    }
}

#[via_fn]
proof fn frame_bodies_decreases(b: Seq<char>) {
    b.index_of_first_ensures('$');
    match b.index_of_first('$') {
        Some(s) => {
            b.skip(s + 1).index_of_first_ensures('#');
        },
        None => {},
    }
}

/// What remains of `b` once every complete frame and the junk before it are
/// consumed: either nothing, or an unfinished frame from its `$` on.
pub open spec fn pending_tail(b: Seq<char>) -> Seq<char>
    decreases b.len(),
    via pending_tail_decreases
{
    match b.index_of_first('$') {
        None => Seq::empty(),
        Some(s) => {
            let after = b.skip(s + 1);
            match after.index_of_first('#') {
                None => b.skip(s),
                Some(e) => pending_tail(after.skip(e + 1)),
            }
        },
    }
}

#[via_fn]
proof fn pending_tail_decreases(b: Seq<char>) {
    b.index_of_first_ensures('$');
    match b.index_of_first('$') {
        Some(s) => {
            b.skip(s + 1).index_of_first_ensures('#');
        },
        None => {},
    }
}

/// The messages denoted by a sequence of frame bodies, bodies that denote no
/// message skipped.
pub open spec fn messages_of_bodies(bodies: Seq<Seq<char>>) -> Seq<MessageModel>
    decreases bodies.len(),
{
    if bodies.len() == 0 {
        Seq::empty()
    } else {
        messages_of_bodies(bodies.drop_last()) + (match body_message(bodies.last()) {
            Some(m) => seq![m],
            None => Seq::empty(),
        })
    }
}

/// The messages of every complete frame in `b`, in order.
pub open spec fn messages_of(b: Seq<char>) -> Seq<MessageModel> {
    messages_of_bodies(frame_bodies(b))
}

/// The models of a sequence of parsed messages.
pub open spec fn models(msgs: Seq<ParsedMessage>) -> Seq<MessageModel> {
    msgs.map_values(|m: ParsedMessage| m@)
}

/// Views of a sequence of owned strings.
pub open spec fn views(ss: Seq<String>) -> Seq<Seq<char>> {
    ss.map_values(|s: String| s@)
}

/// Parse one frame body. Returns a message exactly when the body has at least
/// two colon-separated parts.
pub fn parse_body(body: &str) -> (r: Option<ParsedMessage>)
    ensures
        r is Some <==> body_message(body@) is Some,
        r matches Some(m) ==> body_message(body@) == Some(m@) && m.wf(),
{
    let ghost sp = split_on(body@, ':');
    let len = body.unicode_len();
    let mut parts: Vec<String> = Vec::new();
    let mut pos: usize = 0;
    proof {
        assert(views(parts@) =~= Seq::<Seq<char>>::empty());
        assert(body@.skip(0) =~= body@);
        assert(sp =~= views(parts@) + split_on(body@.skip(0), ':'));
    }
    loop
        invariant_except_break
            sp == views(parts@) + split_on(body@.skip(pos as int), ':'),
        invariant
            pos <= len,
            len == body@.len(),
            sp == split_on(body@, ':'),
        ensures
            views(parts@) == sp,
        decreases len - pos,
    {
        let ghost rem = body@.skip(pos as int);
        match find_char(body, pos, ':') {
            Some(i) => {
                let part = body.substring_char(pos, i).to_owned();
                proof {
                    lemma_first_index(rem, ':', i - pos);
                    assert(rem.take(i - pos) =~= body@.subrange(pos as int, i as int));
                    assert(rem.skip(i - pos + 1) =~= body@.skip(i + 1));
                    assert(views(parts@.push(part)) =~= views(parts@).push(rem.take(i - pos)));
                    assert(views(parts@.push(part)) + split_on(body@.skip(i + 1), ':') =~= views(
                        parts@,
                    ) + split_on(rem, ':'));
                }
                parts.push(part);
                pos = i + 1;
            },
            None => {
                let part = body.substring_char(pos, len).to_owned();
                proof {
                    lemma_no_first_index(rem, ':');
                    assert(rem =~= body@.subrange(pos as int, len as int));
                    assert(views(parts@.push(part)) =~= views(parts@).push(rem));
                    assert(views(parts@.push(part)) =~= views(parts@) + split_on(rem, ':'));
                }
                parts.push(part);
                break ;
            },
        }
    }
    if parts.len() < 2 {
        return None;
    }
    let timestamp = parts[0].clone();
    let command = parts[1].clone();
    let mut msg = ParsedMessage::new(timestamp, command);
    let n = parts.len();
    let mut k: usize = 2;
    while k < n
        invariant
            2 <= k <= n,
            n == parts.len(),
            sp == views(parts@),
            sp == split_on(body@, ':'),
            2 <= sp.len(),
            msg.wf(),
            msg@.timestamp == sp[0],
            msg@.command == sp[1],
            msg@.fields == fields_of(sp.skip(2).take(k - 2)),
        decreases n - k,
    {
        let ghost part_view = parts@[k as int]@;
        let ghost step = sp.skip(2).take(k - 2 + 1);
        proof {
            assert(step.drop_last() =~= sp.skip(2).take(k - 2));
            assert(step.last() == part_view);
        }
        let plen = parts[k].unicode_len();
        match find_char(parts[k].as_str(), 0, '=') {
            Some(i) => {
                let key = parts[k].as_str().substring_char(0, i).to_owned();
                let value = parts[k].as_str().substring_char(i + 1, plen).to_owned();
                proof {
                    lemma_first_index(part_view, '=', i as int);
                    assert(key@ =~= part_view.take(i as int));
                    assert(value@ =~= part_view.skip(i + 1));
                }
                msg.insert_field(key, value);
            },
            None => {
                proof {
                    lemma_no_first_index(part_view, '=');
                }
            },
        }
        k = k + 1;
    }
    proof {
        assert(sp.skip(2).take(n - 2) =~= sp.skip(2));
        assert(body_message(body@) == Some(msg@));
    }
    Some(msg)
}

/// Accumulation buffer for partial frames across reads.
pub struct FrameAccumulator {
    buf: String,
}

impl View for FrameAccumulator {
    type V = Seq<char>;

    closed spec fn view(&self) -> Seq<char> {
        self.buf@
    }
}

impl FrameAccumulator {
    /// An empty accumulator.
    pub fn new() -> (r: FrameAccumulator)
        ensures
            r@ == Seq::<char>::empty(),
    {
        let r = FrameAccumulator { buf: String::new() };
        proof {
            assert(r@ =~= Seq::<char>::empty());
        }
        r
    }

    /// Feed one freshly read byte chunk, decoded permissively, and extract
    /// every frame that is now complete. The messages are exactly those of the
    /// retained text plus the new chunk, and the retained text becomes the
    /// pending tail of that combination, so a frame split across reads is
    /// still recognized once its end arrives.
    pub fn push_chunk(&mut self, chunk: &[u8]) -> (msgs: Vec<ParsedMessage>)
        ensures
            final(self)@ == pending_tail(old(self)@ + lossy(chunk@)),
            models(msgs@) == messages_of(old(self)@ + lossy(chunk@)),
            forall|i: int| 0 <= i < msgs@.len() ==> (#[trigger] msgs@[i]).wf(),
    {
        let decoded = decode_lossy(chunk);
        self.buf.append(decoded.as_str());
        let ghost combined = old(self)@ + lossy(chunk@);
        let mut msgs: Vec<ParsedMessage> = Vec::new();
        let ghost mut done: Seq<Seq<char>> = Seq::empty();
        proof {
            assert(frame_bodies(combined) =~= done + frame_bodies(self.buf@));
            assert(models(msgs@) =~= messages_of_bodies(done));
        }
        loop
            invariant
                frame_bodies(combined) == done + frame_bodies(self.buf@),
                pending_tail(combined) == pending_tail(self.buf@),
                models(msgs@) == messages_of_bodies(done),
                forall|i: int| 0 <= i < msgs@.len() ==> (#[trigger] msgs@[i]).wf(),
            ensures
                self.buf@ == pending_tail(combined),
                models(msgs@) == messages_of(combined),
                forall|i: int| 0 <= i < msgs@.len() ==> (#[trigger] msgs@[i]).wf(),
            decreases self.buf@.len(),
        {
            let ghost cur = self.buf@;
            let len = self.buf.as_str().unicode_len();
            match find_char(self.buf.as_str(), 0, '$') {
                None => {
                    proof {
                        lemma_no_first_index(cur, '$');
                        assert(frame_bodies(cur) =~= Seq::<Seq<char>>::empty());
                        assert(messages_of(combined) =~= messages_of_bodies(done));
                    }
                    self.buf = String::new();
                    proof {
                        lemma_no_first_index(self.buf@, '$');
                        assert(frame_bodies(self.buf@) =~= Seq::<Seq<char>>::empty());
                        assert(self.buf@ =~= pending_tail(cur));
                        assert(frame_bodies(combined) =~= done + frame_bodies(self.buf@));
                    }
                    break ;
                },
                Some(s) => {
                    match find_char(self.buf.as_str(), s + 1, '#') {
                        None => {
                            proof {
                                lemma_first_index(cur, '$', s as int);
                                lemma_no_first_index(cur.skip(s + 1), '#');
                            }
                            let tail = self.buf.as_str().substring_char(s, len).to_owned();
                            self.buf = tail;
                            proof {
                                assert(self.buf@ =~= cur.skip(s as int));
                                assert(self.buf@.len() > 0 && self.buf@[0] == '$');
                                lemma_first_index(self.buf@, '$', 0);
                                assert(self.buf@.skip(1) =~= cur.skip(s + 1));
                                lemma_no_first_index(self.buf@.skip(1), '#');
                                assert(pending_tail(self.buf@) =~= self.buf@.skip(0));
                                assert(self.buf@.skip(0) =~= self.buf@);
                                assert(frame_bodies(self.buf@) =~= frame_bodies(cur));
                                assert(messages_of(combined) =~= messages_of_bodies(done));
                            }
                            break ;
                        },
                        Some(e) => {
                            let ghost after = cur.skip(s + 1);
                            let body_str = self.buf.as_str().substring_char(s + 1, e).to_owned();
                            let rest = self.buf.as_str().substring_char(e + 1, len).to_owned();
                            proof {
                                lemma_first_index(cur, '$', s as int);
                                lemma_first_index(after, '#', e - s - 1);
                                assert(body_str@ =~= after.take(e - s - 1));
                                assert(rest@ =~= after.skip(e - s - 1 + 1));
                                assert(frame_bodies(cur) =~= seq![after.take(e - s - 1)]
                                    + frame_bodies(rest@));
                                assert(pending_tail(cur) == pending_tail(rest@));
                            }
                            let parsed = parse_body(body_str.as_str());
                            proof {
                                let next_done = done.push(body_str@);
                                assert(next_done.drop_last() =~= done);
                                assert(frame_bodies(combined) =~= next_done + frame_bodies(rest@));
                            }
                            match parsed {
                                Some(m) => {
                                    proof {
                                        assert(models(msgs@.push(m)) =~= messages_of_bodies(
                                            done.push(body_str@),
                                        ));
                                    }
                                    msgs.push(m);
                                },
                                None => {
                                    proof {
                                        assert(messages_of_bodies(done.push(body_str@))
                                            =~= messages_of_bodies(done));
                                    }
                                },
                            }
                            proof {
                                done = done.push(body_str@);
                            }
                            self.buf = rest;
                        },
                    }
                },
            }
        }
        msgs
    }
}

} // verus!

// The laws of frame extraction, stated over the grammar itself.

verus! {

/// Whether the part at `j` fails to bind the key `k` (it has no `=`, or a
/// different key).
pub open spec fn part_binds_other_key(parts: Seq<Seq<char>>, j: int, k: Seq<char>) -> bool {
    match field_entry(parts[j]) {
        Some(kv) => kv.0 != k,
        None => true,
    }
}

/// Law: every well-formed `key=value` part ends up in the field mapping, and
/// where no later part binds the same key, with exactly its own value.
pub proof fn lemma_fields_complete(parts: Seq<Seq<char>>, i: int)
    requires
        0 <= i < parts.len(),
        field_entry(parts[i]) is Some,
    ensures
        fields_of(parts).contains_key(field_entry(parts[i])->Some_0.0),
        (forall|j: int| i < j < parts.len() ==> part_binds_other_key(parts, j, field_entry(parts[i])->Some_0.0))
            ==> fields_of(parts)[field_entry(parts[i])->Some_0.0] == field_entry(parts[i])->Some_0.1,
    decreases parts.len(),
{
    let kv = field_entry(parts[i])->Some_0;
    if i == parts.len() - 1 {
    } else {
        assert(parts.drop_last()[i] == parts[i]);
        lemma_fields_complete(parts.drop_last(), i);
        if forall|j: int| i < j < parts.len() ==> part_binds_other_key(parts, j, kv.0) {
            assert forall|j: int| i < j < parts.len() - 1 implies part_binds_other_key(
                parts.drop_last(),
                j,
                kv.0,
            ) by {
                assert(parts.drop_last()[j] == parts[j]);
                assert(part_binds_other_key(parts, j, kv.0));
            }
            assert(fields_of(parts.drop_last())[kv.0] == kv.1);
            match field_entry(parts.last()) {
                Some(kv2) => {
                    assert(part_binds_other_key(parts, parts.len() - 1, kv.0));
                    assert(kv2.0 != kv.0);
                },
                None => {},
            }
        }
    }
}

/// Law: a part without `=` contributes nothing — dropping it leaves the field
/// mapping unchanged (and the message is still produced from the others).
pub proof fn lemma_malformed_field_skipped(parts: Seq<Seq<char>>, i: int)
    requires
        0 <= i < parts.len(),
        field_entry(parts[i]) is None,
    ensures
        fields_of(parts) == fields_of(parts.remove(i)),
    decreases parts.len(),
{
    if i == parts.len() - 1 {
        assert(parts.remove(i) =~= parts.drop_last());
    } else {
        assert(parts.remove(i).drop_last() =~= parts.drop_last().remove(i));
        assert(parts.remove(i).last() == parts.last());
        assert(parts.drop_last()[i] == parts[i]);
        lemma_malformed_field_skipped(parts.drop_last(), i);
    }
}

/// Law: a buffer holding exactly one complete frame yields exactly that
/// frame's message — one message when the body has at least two parts, none
/// otherwise — whatever junk without markers stands around it.
pub proof fn lemma_single_frame(pre: Seq<char>, body: Seq<char>, post: Seq<char>)
    requires
        !pre.contains('$'),
        !body.contains('#'),
        !post.contains('#'),
    ensures
        messages_of(pre + seq!['$'] + body + seq!['#'] + post) == (match body_message(body) {
            Some(m) => seq![m],
            None => Seq::<MessageModel>::empty(),
        }),
{
    let buf = pre + seq!['$'] + body + seq!['#'] + post;
    let p = pre.len() as int;
    let b = body.len() as int;
    assert(buf[p] == '$');
    assert forall|j: int| 0 <= j < p implies buf[j] != '$' by {
        assert(buf[j] == pre[j]);
        if pre[j] == '$' {
            assert(pre.contains('$'));
        }
    }
    crate::text::lemma_first_index(buf, '$', p);
    let after = buf.skip(p + 1);
    assert(after =~= body + seq!['#'] + post);
    assert(after[b] == '#');
    assert forall|j: int| 0 <= j < b implies after[j] != '#' by {
        assert(after[j] == body[j]);
        if body[j] == '#' {
            assert(body.contains('#'));
        }
    }
    crate::text::lemma_first_index(after, '#', b);
    assert(after.take(b) =~= body);
    let rest = after.skip(b + 1);
    assert(rest =~= post);
    assert(frame_bodies(post) =~= Seq::<Seq<char>>::empty()) by {
        post.index_of_first_ensures('$');
        match post.index_of_first('$') {
            Some(s) => {
                let after2 = post.skip(s + 1);
                assert forall|j: int| 0 <= j < after2.len() implies after2[j] != '#' by {
                    assert(after2[j] == post[j + s + 1]);
                    if post[j + s + 1] == '#' {
                        assert(post.contains('#'));
                    }
                }
                crate::text::lemma_no_first_index(after2, '#');
            },
            None => {},
        }
    }
    assert(frame_bodies(buf) =~= seq![body]);
    let one = seq![body];
    assert(one.drop_last() =~= Seq::<Seq<char>>::empty());
    assert(one.last() == body);
    assert(messages_of_bodies(Seq::<Seq<char>>::empty()) == Seq::<MessageModel>::empty());
    match body_message(body) {
        Some(m) => {
            assert(messages_of_bodies(one) =~= seq![m]);
        },
        None => {
            assert(messages_of_bodies(one) =~= Seq::<MessageModel>::empty());
        },
    }
}

} // verus!

// Chunking laws: reading a stream in pieces loses no frame and invents none.

verus! {

/// Junk without a start marker ahead of the stream changes nothing.
proof fn lemma_junk_prefix(p: Seq<char>, c: Seq<char>)
    requires
        !p.contains('$'),
    ensures
        frame_bodies(p + c) == frame_bodies(c),
        pending_tail(p + c) == pending_tail(c),
{
    let b = p + c;
    let pl = p.len() as int;
    c.index_of_first_ensures('$');
    match c.index_of_first('$') {
        None => {
            assert forall|j: int| 0 <= j < b.len() implies b[j] != '$' by {
                if j < pl {
                    if p[j] == '$' {
                        assert(p.contains('$'));
                    }
                } else {
                    if c[j - pl] == '$' {
                        assert(c.contains('$'));
                    }
                }
            }
            lemma_no_first_index(b, '$');
        },
        Some(s) => {
            assert(b[pl + s] == '$');
            assert forall|j: int| 0 <= j < pl + s implies b[j] != '$' by {
                if j < pl {
                    if p[j] == '$' {
                        assert(p.contains('$'));
                    }
                } else {
                    assert(c[j - pl] != '$');
                }
            }
            lemma_first_index(b, '$', pl + s);
            assert(b.skip(pl + s + 1) =~= c.skip(s + 1));
            let after = c.skip(s + 1);
            after.index_of_first_ensures('#');
            match after.index_of_first('#') {
                None => {
                    assert(b.skip(pl + s) =~= c.skip(s));
                },
                Some(_) => {},
            }
        },
    }
}

/// The frames of a combined buffer are the frames already complete in its
/// first part, then those of the first part's pending tail joined with the
/// rest; the pending tail composes the same way.
proof fn lemma_frames_concat(b: Seq<char>, c: Seq<char>)
    ensures
        frame_bodies(b + c) == frame_bodies(b) + frame_bodies(pending_tail(b) + c),
        pending_tail(b + c) == pending_tail(pending_tail(b) + c),
    decreases b.len(),
{
    b.index_of_first_ensures('$');
    match b.index_of_first('$') {
        None => {
            lemma_junk_prefix(b, c);
            assert(pending_tail(b) + c =~= c);
            assert(frame_bodies(b) + frame_bodies(c) =~= frame_bodies(c));
        },
        Some(s) => {
            assert(b[s] == '$');
            assert((b + c)[s] == '$');
            assert forall|j: int| 0 <= j < s implies (b + c)[j] != '$' by {
                assert((b + c)[j] == b[j]);
            }
            lemma_first_index(b + c, '$', s);
            let awb = b.skip(s + 1);
            let after = (b + c).skip(s + 1);
            assert(after =~= awb + c);
            awb.index_of_first_ensures('#');
            match awb.index_of_first('#') {
                None => {
                    // No end marker inside this part: nothing completes here,
                    // and both sides continue from the same suffix.
                    let pt = b.skip(s);
                    assert(pending_tail(b) == pt);
                    assert((pt + c).len() > 0 && (pt + c)[0] == '$');
                    lemma_first_index(pt + c, '$', 0);
                    assert((pt + c).skip(1) =~= awb + c);
                    (awb + c).index_of_first_ensures('#');
                    match (awb + c).index_of_first('#') {
                        None => {
                            assert((b + c).skip(s) =~= pt + c);
                            assert((pt + c).skip(0) =~= pt + c);
                            assert(frame_bodies(b) + frame_bodies(pt + c) =~= frame_bodies(
                                pt + c,
                            ));
                        },
                        Some(_) => {
                            assert(frame_bodies(b) + frame_bodies(pt + c) =~= frame_bodies(
                                pt + c,
                            ));
                        },
                    }
                },
                Some(e) => {
                    // A frame completes inside this part: it is the same frame
                    // on both sides, and induction finishes the rest.
                    let body = awb.take(e);
                    let rest = awb.skip(e + 1);
                    assert(after[e] == '#');
                    assert forall|j: int| 0 <= j < e implies after[j] != '#' by {
                        assert(after[j] == awb[j]);
                    }
                    lemma_first_index(after, '#', e);
                    assert(after.take(e) =~= body);
                    assert(after.skip(e + 1) =~= rest + c);
                    lemma_frames_concat(rest, c);
                    assert(frame_bodies(b + c) =~= frame_bodies(b) + frame_bodies(
                        pending_tail(b) + c,
                    ));
                },
            }
        },
    }
}

/// Messages distribute over concatenation of frame bodies.
proof fn lemma_messages_of_bodies_concat(x: Seq<Seq<char>>, y: Seq<Seq<char>>)
    ensures
        messages_of_bodies(x + y) == messages_of_bodies(x) + messages_of_bodies(y),
    decreases y.len(),
{
    if y.len() == 0 {
        assert(x + y =~= x);
        assert(messages_of_bodies(x) + messages_of_bodies(y) =~= messages_of_bodies(x));
    } else {
        assert((x + y).drop_last() =~= x + y.drop_last());
        assert((x + y).last() == y.last());
        lemma_messages_of_bodies_concat(x, y.drop_last());
        assert(messages_of_bodies(x + y) =~= messages_of_bodies(x) + messages_of_bodies(y));
    }
}

/// Law: frame extraction is insensitive to how the stream is cut into reads.
/// Feeding a buffer and then more text yields exactly the messages of the
/// first buffer followed by the messages of its pending tail joined with the
/// rest — no frame is lost at a read boundary and none is invented — and the
/// retained tail is the same either way.
pub proof fn lemma_chunking_preserves_messages(b: Seq<char>, c: Seq<char>)
    ensures
        messages_of(b + c) == messages_of(b) + messages_of(pending_tail(b) + c),
        pending_tail(b + c) == pending_tail(pending_tail(b) + c),
{
    lemma_frames_concat(b, c);
    lemma_messages_of_bodies_concat(frame_bodies(b), frame_bodies(pending_tail(b) + c));
}

} // verus!
