//! One decoded protocol frame: a timestamp token, a command code, and a
//! mapping of `KEY=VALUE` fields. The mapping keeps keys unique (a repeated
//! key overwrites the earlier value, as the device never should but may do);
//! its mathematical model is a `Map` from key characters to value characters.

use vstd::prelude::*;

verus! {

/// Mathematical model of a parsed frame.
pub ghost struct MessageModel {
    pub timestamp: Seq<char>,
    pub command: Seq<char>,
    pub fields: Map<Seq<char>, Seq<char>>,
}

/// The mapping denoted by a sequence of key/value pairs, a later pair
/// overriding an earlier one with the same key.
pub open spec fn pairs_to_map(ps: Seq<(Seq<char>, Seq<char>)>) -> Map<Seq<char>, Seq<char>>
    decreases ps.len(),
{
    if ps.len() == 0 {
        Map::empty()
    } else {
        pairs_to_map(ps.drop_last()).insert(ps.last().0, ps.last().1)
    }
}

/// The keys of `ps` are pairwise distinct.
pub open spec fn distinct_keys(ps: Seq<(Seq<char>, Seq<char>)>) -> bool {
    forall|i: int, j: int| 0 <= i < j < ps.len() ==> (#[trigger] ps[i]).0 != (#[trigger] ps[j]).0
}

/// Rendering of the field pairs for the log: `key1=val1, key2=val2`.
pub open spec fn render_fields(ps: Seq<(Seq<char>, Seq<char>)>) -> Seq<char>
    decreases ps.len(),
{
    if ps.len() == 0 {
        Seq::empty()
    } else if ps.len() == 1 {
        ps[0].0 + seq!['='] + ps[0].1
    } else {
        render_fields(ps.drop_last()) + seq![',', ' '] + ps.last().0 + seq!['='] + ps.last().1
    }
}

/// Rendering of a whole frame for the log: `[timestamp] command fields`.
pub open spec fn render_message(
    ts: Seq<char>,
    cmd: Seq<char>,
    ps: Seq<(Seq<char>, Seq<char>)>,
) -> Seq<char> {
    seq!['['] + ts + seq![']', ' '] + cmd + seq![' '] + render_fields(ps)
}

/// One decoded protocol frame.
#[derive(Clone, Debug)]
pub struct ParsedMessage {
    /// Device-supplied timestamp token, opaque to the core.
    pub timestamp: String,
    /// Short command code, e.g. `SMS` or `MET`.
    pub command: String,
    /// `KEY=VALUE` pairs of the frame body, in insertion order, keys unique.
    pub fields: Vec<(String, String)>,
}

impl View for ParsedMessage {
    type V = MessageModel;

    open spec fn view(&self) -> MessageModel {
        MessageModel {
            timestamp: self.timestamp@,
            command: self.command@,
            fields: pairs_to_map(self.field_pairs()),
        }
    }
}

impl ParsedMessage {
    /// The field pairs, each as its character sequences.
    pub open spec fn field_pairs(self) -> Seq<(Seq<char>, Seq<char>)> {
        self.fields@.map_values(|p: (String, String)| (p.0@, p.1@))
    }

    /// The field keys are pairwise distinct.
    pub open spec fn wf(self) -> bool {
        distinct_keys(self.field_pairs())
    }

    /// A frame with no fields yet.
    pub fn new(timestamp: String, command: String) -> (r: ParsedMessage)
        ensures
            r@.timestamp == timestamp@,
            r@.command == command@,
            r@.fields == Map::<Seq<char>, Seq<char>>::empty(),
            r.field_pairs() == Seq::<(Seq<char>, Seq<char>)>::empty(),
            r.wf(),
    {
        let r = ParsedMessage { timestamp, command, fields: Vec::new() };
        proof {
            assert(r.field_pairs() =~= Seq::<(Seq<char>, Seq<char>)>::empty());
        }
        r
    }

    /// Add one field; a pair with the same key is overwritten in place.
    pub fn insert_field(&mut self, key: String, value: String)
        requires
            old(self).wf(),
        ensures
            final(self).wf(),
            final(self)@.timestamp == old(self)@.timestamp,
            final(self)@.command == old(self)@.command,
            final(self)@.fields == old(self)@.fields.insert(key@, value@),
    {
        let ghost orig = self.field_pairs();
        let mut i: usize = 0;
        let n = self.fields.len();
        while i < n
            invariant
                0 <= i <= n,
                n == self.fields.len(),
                orig == self.field_pairs(),
                orig == old(self).field_pairs(),
                self.timestamp@ == old(self).timestamp@,
                self.command@ == old(self).command@,
                distinct_keys(orig),
                forall|j: int| 0 <= j < i ==> (#[trigger] orig[j]).0 != key@,
            decreases n - i,
        {
            if str_eq_owned(&self.fields[i].0, &key) {
                proof {
                    lemma_pairs_to_map_update(orig, i as int, value@);
                    assert(orig.update(i as int, (key@, value@)) =~= self.field_pairs().update(
                        i as int,
                        (key@, value@),
                    ));
                    assert(self.field_pairs().update(i as int, (key@, value@))
                        =~= self.fields@.update(i as int, (key, value)).map_values(
                        |p: (String, String)| (p.0@, p.1@),
                    ));
                    lemma_distinct_update(orig, i as int, (key@, value@));
                }
                self.fields.set(i, (key, value));
                return ;
            }
            i = i + 1;
        }
        proof {
            assert(forall|j: int| 0 <= j < orig.len() ==> (#[trigger] orig[j]).0 != key@);
            let qs = orig.push((key@, value@));
            assert(qs.drop_last() =~= orig);
            assert(distinct_keys(qs)) by {
                assert forall|a: int, b: int| 0 <= a < b < qs.len() implies (#[trigger] qs[a]).0
                    != (#[trigger] qs[b]).0 by {
                    if b < qs.len() - 1 {
                        assert(orig[a].0 != orig[b].0);
                    } else {
                        assert(orig[a].0 != key@);
                    }
                }
            }
            assert(self.fields@.push((key, value)).map_values(|p: (String, String)| (p.0@, p.1@))
                =~= qs);
        }
        self.fields.push((key, value));
    }

    /// The display string of the frame, as it goes into the log ring:
    /// `[timestamp] command key1=val1, key2=val2`.
    pub fn display_string(&self) -> (r: String)
        ensures
            r@ == render_message(self.timestamp@, self.command@, self.field_pairs()),
    {
        let mut out = String::from_str("[");
        out.append(self.timestamp.as_str());
        out.append("] ");
        out.append(self.command.as_str());
        out.append(" ");
        let ghost ps = self.field_pairs();
        let ghost head = seq!['['] + self.timestamp@ + seq![']', ' '] + self.command@ + seq![' '];
        proof {
            reveal_strlit("[");
            reveal_strlit("] ");
            reveal_strlit(" ");
            assert(out@ =~= head);
            assert(out@ =~= head + render_fields(ps.take(0)));
        }
        let n = self.fields.len();
        let mut i: usize = 0;
        while i < n
            invariant
                0 <= i <= n,
                n == self.fields.len(),
                ps == self.field_pairs(),
                out@ == head + render_fields(ps.take(i as int)),
            decreases n - i,
        {
            if i > 0 {
                out.append(", ");
            }
            out.append(self.fields[i].0.as_str());
            out.append("=");
            out.append(self.fields[i].1.as_str());
            proof {
                reveal_strlit(", ");
                reveal_strlit("=");
                assert(ps.take(i + 1).drop_last() =~= ps.take(i as int));
                assert(ps.take(i + 1).last() == ps[i as int]);
                if i == 0 {
                    assert(out@ =~= head + render_fields(ps.take(i + 1)));
                } else {
                    assert(out@ =~= head + render_fields(ps.take(i + 1)));
                }
            }
            i = i + 1;
        }
        proof {
            assert(ps.take(n as int) =~= ps);
            assert(out@ =~= render_message(self.timestamp@, self.command@, ps));
        }
        out
    }

    /// Look a field up by key.
    pub fn get_field(&self, key: &str) -> (r: Option<&String>)
        requires
            self.wf(),
        ensures
            match r {
                Some(v) => self@.fields.contains_key(key@) && v@ == self@.fields[key@],
                None => !self@.fields.contains_key(key@),
            },
    {
        let ghost ps = self.field_pairs();
        let n = self.fields.len();
        let mut i: usize = 0;
        while i < n
            invariant
                0 <= i <= n,
                n == self.fields.len(),
                ps == self.field_pairs(),
                distinct_keys(ps),
                forall|j: int| 0 <= j < i ==> (#[trigger] ps[j]).0 != key@,
            decreases n - i,
        {
            if crate::text::str_eq(self.fields[i].0.as_str(), key) {
                proof {
                    lemma_pairs_to_map_get(ps, i as int);
                }
                return Some(&self.fields[i].1);
            }
            i = i + 1;
        }
        proof {
            lemma_pairs_to_map_missing(ps, key@);
        }
        None
    }
}

/// Equality of two owned strings, by their characters.
fn str_eq_owned(a: &String, b: &String) -> (r: bool)
    ensures
        r <==> a@ == b@,
{
    crate::text::str_eq(a.as_str(), b.as_str())
}

/// In a pair sequence with distinct keys, the mapping sends each key to the
/// value paired with it.
pub proof fn lemma_pairs_to_map_get(ps: Seq<(Seq<char>, Seq<char>)>, i: int)
    requires
        distinct_keys(ps),
        0 <= i < ps.len(),
    ensures
        pairs_to_map(ps).contains_key(ps[i].0),
        pairs_to_map(ps)[ps[i].0] == ps[i].1,
    decreases ps.len(),
{
    if i < ps.len() - 1 {
        assert(distinct_keys(ps.drop_last()));
        lemma_pairs_to_map_get(ps.drop_last(), i);
        assert(ps.last().0 != ps[i].0);
    }
}

/// A key paired with nothing is not in the mapping.
pub proof fn lemma_pairs_to_map_missing(ps: Seq<(Seq<char>, Seq<char>)>, k: Seq<char>)
    requires
        forall|j: int| 0 <= j < ps.len() ==> (#[trigger] ps[j]).0 != k,
    ensures
        !pairs_to_map(ps).contains_key(k),
    decreases ps.len(),
{
    if ps.len() > 0 {
        lemma_pairs_to_map_missing(ps.drop_last(), k);
    }
}

/// Overwriting the value at one position of a distinct-key pair sequence
/// updates the mapping at that key.
proof fn lemma_pairs_to_map_update(ps: Seq<(Seq<char>, Seq<char>)>, i: int, v: Seq<char>)
    requires
        distinct_keys(ps),
        0 <= i < ps.len(),
    ensures
        pairs_to_map(ps.update(i, (ps[i].0, v))) == pairs_to_map(ps).insert(ps[i].0, v),
    decreases ps.len(),
{
    let k = ps[i].0;
    let qs = ps.update(i, (k, v));
    if i == ps.len() - 1 {
        assert(qs.drop_last() =~= ps.drop_last());
        assert(pairs_to_map(qs) =~= pairs_to_map(ps).insert(k, v));
    } else {
        assert(distinct_keys(ps.drop_last()));
        lemma_pairs_to_map_update(ps.drop_last(), i, v);
        assert(qs.drop_last() =~= ps.drop_last().update(i, (k, v)));
        assert(qs.last() == ps.last());
        assert(ps.last().0 != k);
        assert(pairs_to_map(qs) =~= pairs_to_map(ps).insert(k, v));
    }
}

/// Updating one pair without changing its key keeps the keys distinct.
proof fn lemma_distinct_update(ps: Seq<(Seq<char>, Seq<char>)>, i: int, p: (Seq<char>, Seq<char>))
    requires
        distinct_keys(ps),
        0 <= i < ps.len(),
        p.0 == ps[i].0,
    ensures
        distinct_keys(ps.update(i, p)),
{
    let qs = ps.update(i, p);
    assert forall|a: int, b: int| 0 <= a < b < qs.len() implies (#[trigger] qs[a]).0 != (
    #[trigger] qs[b]).0 by {
        assert(ps[a].0 != ps[b].0);
    }
}

} // verus!
