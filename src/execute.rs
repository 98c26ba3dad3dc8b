//! Running commands against the store.
use crate::backend::{
    assoc, assoc_put, hash_or_empty, set_add_all, set_or_empty, store_sorted, Backend,
    BackendView,
};
use crate::cmd::{
    frame_command_spec, strings_view, Command, CommandError, CommandView, Echo, Get, HGet, HGetAll,
    HMGet, HSet, SAdd, SIsMember, SetCommand,
};
use crate::containers::copy_frame;
use crate::frame::{
    frames_view, lemma_entries_view, BulkString, RespArray, RespFrame, RespNull, SimpleError,
    SimpleString,
};
use crate::model::{map_insert, map_lookup, FrameView};
use vstd::prelude::*;
use vstd::utf8::encode_utf8;

verus! {

/// `+OK`
pub open spec fn ok_view() -> FrameView {
    FrameView::Simple(seq!['O', 'K'])
}

/// The frame found, or null.
pub open spec fn or_null(v: Option<FrameView>) -> FrameView {
    match v {
        Some(f) => f,
        None => FrameView::Null,
    }
}

/// `field` of the hash under `key`, if both are there.
pub open spec fn hash_field(b: BackendView, key: Seq<char>, field: Seq<char>) -> Option<FrameView> {
    match assoc(b.hashes, key) {
        Some(h) => map_lookup(h, field),
        None => None,
    }
}

/// The entries of a hash as one sequence: each field as a bulk string, then its value.
pub open spec fn field_value_pairs(h: Seq<(Seq<char>, FrameView)>) -> Seq<FrameView>
    decreases h.len(),
{
    if h.len() == 0 {
        seq![]
    } else {
        field_value_pairs(h.drop_last()) + seq![
            FrameView::Bulk(encode_utf8(h.last().0)),
            h.last().1,
        ]
    }
}

/// Only the strings table differs, and it as `strings`.
pub open spec fn strings_become(before: BackendView, after: BackendView, strings: Seq<(Seq<char>, FrameView)>) -> bool {
    after.strings == strings && after.hashes == before.hashes && after.sets == before.sets
}

/// What a command does to the store and answers.
pub open spec fn command_effect(
    c: CommandView,
    before: BackendView,
    after: BackendView,
    reply: FrameView,
) -> bool {
    match c {
        CommandView::Get(key) => {
            after == before && reply == or_null(map_lookup(before.strings, key))
        },
        CommandView::SetValue(key, value) => {
            strings_become(before, after, map_insert(before.strings, key, value)) && reply
                == ok_view()
        },
        CommandView::Echo(message) => {
            after == before && reply == FrameView::Bulk(encode_utf8(message))
        },
        CommandView::HGet(key, field) => {
            after == before && reply == or_null(hash_field(before, key, field))
        },
        CommandView::HSet(key, field, value) => {
            after.hashes == assoc_put(
                before.hashes,
                key,
                map_insert(hash_or_empty(before, key), field, value),
            ) && after.strings == before.strings && after.sets == before.sets && reply == ok_view()
        },
        CommandView::HGetAll(key) => {
            after == before && reply == match assoc(before.hashes, key) {
                Some(h) => FrameView::Array(field_value_pairs(h)),
                None => FrameView::Null,
            }
        },
        CommandView::HMGet(key, fields) => {
            after == before && reply == FrameView::Array(
                fields.map_values(|f: Seq<char>| or_null(hash_field(before, key, f))),
            )
        },
        CommandView::SAdd(key, members) => {
            after.sets == assoc_put(
                before.sets,
                key,
                set_add_all(set_or_empty(before, key), members),
            ) && after.strings == before.strings && after.hashes == before.hashes && reply
                == ok_view()
        },
        CommandView::SIsMember(key, member) => {
            after == before && reply == FrameView::Integer(
                if set_or_empty(before, key).contains(member) {
                    1
                } else {
                    0
                },
            )
        },
    }
}

/// Runs a command against the store.
pub trait CommandExecutor {
    spec fn effect(&self, before: BackendView, after: BackendView, reply: FrameView) -> bool;

    fn execute(&self, backend: &mut Backend) -> (r: RespFrame)
        ensures
            self.effect(old(backend)@, final(backend)@, r@),
            store_sorted(old(backend)@) ==> store_sorted(final(backend)@),
    ;
}

/// The reply `+OK`.
pub fn resp_ok() -> (r: RespFrame)
    ensures
        r@ == ok_view(),
{
    let s = String::from_str("OK");
    proof {
        reveal_strlit("OK");
    }
    assert(s@ =~= seq!['O', 'K']);
    RespFrame::SimpleString(SimpleString(s))
}

fn text_bytes(s: &String) -> (r: Vec<u8>)
    ensures
        r@ == encode_utf8(s@),
{
    let b = s.as_str().as_bytes();
    crate::scan::copy_range(b, 0, b.len())
}

impl CommandExecutor for Get {
    open spec fn effect(&self, before: BackendView, after: BackendView, reply: FrameView) -> bool {
        command_effect(self@, before, after, reply)
    }

    fn execute(&self, backend: &mut Backend) -> (r: RespFrame) {
        match backend.get(&self.key) {
            Some(v) => v,
            None => RespFrame::Null(RespNull),
        }
    }
}

impl CommandExecutor for SetCommand {
    open spec fn effect(&self, before: BackendView, after: BackendView, reply: FrameView) -> bool {
        command_effect(self@, before, after, reply)
    }

    fn execute(&self, backend: &mut Backend) -> (r: RespFrame) {
        backend.set(self.key.clone(), copy_frame(&self.value));
        resp_ok()
    }
}

impl CommandExecutor for Echo {
    open spec fn effect(&self, before: BackendView, after: BackendView, reply: FrameView) -> bool {
        command_effect(self@, before, after, reply)
    }

    fn execute(&self, backend: &mut Backend) -> (r: RespFrame) {
        RespFrame::BulkString(BulkString(text_bytes(&self.message)))
    }
}

impl CommandExecutor for HGet {
    open spec fn effect(&self, before: BackendView, after: BackendView, reply: FrameView) -> bool {
        command_effect(self@, before, after, reply)
    }

    fn execute(&self, backend: &mut Backend) -> (r: RespFrame) {
        match backend.hget(&self.key, &self.field) {
            Some(v) => v,
            None => RespFrame::Null(RespNull),
        }
    }
}

impl CommandExecutor for HSet {
    open spec fn effect(&self, before: BackendView, after: BackendView, reply: FrameView) -> bool {
        command_effect(self@, before, after, reply)
    }

    fn execute(&self, backend: &mut Backend) -> (r: RespFrame) {
        backend.hset(self.key.clone(), self.field.clone(), copy_frame(&self.value));
        resp_ok()
    }
}

impl CommandExecutor for HGetAll {
    open spec fn effect(&self, before: BackendView, after: BackendView, reply: FrameView) -> bool {
        command_effect(self@, before, after, reply)
    }

    fn execute(&self, backend: &mut Backend) -> (r: RespFrame) {
        match backend.hgetall(&self.key) {
            None => RespFrame::Null(RespNull),
            Some(m) => {
                let ghost h = m@;
                proof {
                    lemma_entries_view(m.0@);
                    assert(h.subrange(0, 0) =~= Seq::<(Seq<char>, FrameView)>::empty());
                }
                let mut out: Vec<RespFrame> = Vec::new();
                let mut i: usize = 0;
                while i < m.0.len()
                    invariant
                        i <= m.0.len(),
                        h == m@,
                        h.len() == m.0.len(),
                        forall|k: int|
                            0 <= k < m.0.len() ==> #[trigger] h[k] == (m.0@[k].0@, m.0@[k].1@),
                        frames_view(out@) == field_value_pairs(h.subrange(0, i as int)),
                    decreases m.0.len() - i,
                {
                    let field = RespFrame::BulkString(BulkString(text_bytes(&m.0[i].0)));
                    let value = copy_frame(&m.0[i].1);
                    proof {
                        assert(h.subrange(0, i + 1).drop_last() =~= h.subrange(0, i as int));
                        assert(out@.push(field).drop_last() =~= out@);
                        assert(out@.push(field).push(value).drop_last() =~= out@.push(field));
                        assert(frames_view(out@).push(field@).push(value@) =~= frames_view(out@)
                            + seq![field@, value@]);
                        assert(frames_view(out@.push(field)) == frames_view(out@).push(field@));
                        assert(frames_view(out@.push(field).push(value)) == frames_view(
                            out@.push(field),
                        ).push(value@));
                        assert(field_value_pairs(h.subrange(0, i + 1)) == field_value_pairs(
                            h.subrange(0, i as int),
                        ) + seq![FrameView::Bulk(encode_utf8(h[i as int].0)), h[i as int].1]);
                    }
                    out.push(field);
                    out.push(value);
                    i += 1;
                }
                assert(h.subrange(0, i as int) =~= h);
                RespFrame::Array(RespArray(out))
            },
        }
    }
}

impl CommandExecutor for HMGet {
    open spec fn effect(&self, before: BackendView, after: BackendView, reply: FrameView) -> bool {
        command_effect(self@, before, after, reply)
    }

    fn execute(&self, backend: &mut Backend) -> (r: RespFrame) {
        let ghost want = strings_view(self.fields@).map_values(
            |f: Seq<char>| or_null(hash_field(backend@, self.key@, f)),
        );
        let mut out: Vec<RespFrame> = Vec::new();
        let mut i: usize = 0;
        while i < self.fields.len()
            invariant
                i <= self.fields.len(),
                want.len() == self.fields.len(),
                forall|k: int|
                    0 <= k < self.fields.len() ==> #[trigger] want[k] == or_null(
                        hash_field(backend@, self.key@, self.fields@[k]@),
                    ),
                frames_view(out@) == want.subrange(0, i as int),
            decreases self.fields.len() - i,
        {
            let v = match backend.hget(&self.key, &self.fields[i]) {
                Some(v) => v,
                None => RespFrame::Null(RespNull),
            };
            proof {
                assert(out@.push(v).drop_last() =~= out@);
                assert(want.subrange(0, i as int).push(v@) =~= want.subrange(0, i + 1));
            }
            out.push(v);
            i += 1;
        }
        assert(want.subrange(0, i as int) =~= want);
        RespFrame::Array(RespArray(out))
    }
}

impl CommandExecutor for SAdd {
    open spec fn effect(&self, before: BackendView, after: BackendView, reply: FrameView) -> bool {
        command_effect(self@, before, after, reply)
    }

    fn execute(&self, backend: &mut Backend) -> (r: RespFrame) {
        backend.sadd(self.key.clone(), &self.members);
        resp_ok()
    }
}

impl CommandExecutor for SIsMember {
    open spec fn effect(&self, before: BackendView, after: BackendView, reply: FrameView) -> bool {
        command_effect(self@, before, after, reply)
    }

    fn execute(&self, backend: &mut Backend) -> (r: RespFrame) {
        if backend.sismember(&self.key, &self.member) {
            RespFrame::Integer(1)
        } else {
            RespFrame::Integer(0)
        }
    }
}

impl CommandExecutor for Command {
    open spec fn effect(&self, before: BackendView, after: BackendView, reply: FrameView) -> bool {
        command_effect(self@, before, after, reply)
    }

    fn execute(&self, backend: &mut Backend) -> (r: RespFrame) {
        match self {
            Command::Get(c) => c.execute(backend),
            Command::SetCommand(c) => c.execute(backend),
            Command::Echo(c) => c.execute(backend),
            Command::HGet(c) => c.execute(backend),
            Command::HSet(c) => c.execute(backend),
            Command::HGetAll(c) => c.execute(backend),
            Command::HMGet(c) => c.execute(backend),
            Command::SAdd(c) => c.execute(backend),
            Command::SIsMember(c) => c.execute(backend),
        }
    }
}

/// The reply to a decoded frame: the command it stands for, run against the store; a frame
/// that is no command is answered with an error frame and changes nothing.
pub fn frame_handler(frame: RespFrame, backend: &mut Backend) -> (r: RespFrame)
    ensures
        match frame_command_spec(frame@) {
            Ok(c) => command_effect(c, old(backend)@, final(backend)@, r@),
            Err(_) => final(backend)@ == old(backend)@ && r@ is Error,
        },
        store_sorted(old(backend)@) ==> store_sorted(final(backend)@),
{
    match Command::try_from(frame) {
        Ok(cmd) => cmd.execute(backend),
        Err(e) => RespFrame::Error(SimpleError(e.message())),
    }
}

/// A GET after a SET of the same key answers the value that was set, in a store kept in
/// order.
pub proof fn law_set_then_get(
    before: BackendView,
    mid: BackendView,
    after: BackendView,
    key: Seq<char>,
    value: FrameView,
    set_reply: FrameView,
    get_reply: FrameView,
)
    requires
        store_sorted(before),
        command_effect(CommandView::SetValue(key, value), before, mid, set_reply),
        command_effect(CommandView::Get(key), mid, after, get_reply),
    ensures
        set_reply == ok_view(),
        get_reply == value,
{
    crate::ordering::lemma_map_insert_sorted(before.strings, key, value);
}

} // verus!
