//! Commands: read out of a decoded array of bulk strings, then run against the store.
use crate::containers::copy_frame;
use crate::decode::RespError;
use crate::frame::{frames_view, lemma_frames_view, RespArray, RespFrame};
use crate::model::FrameView;
use crate::scan::utf8_to_string;
use vstd::prelude::*;
use vstd::utf8::{decode_utf8, valid_utf8};

verus! {

/// The kinds of `CommandError`.
pub enum CmdFault {
    InvalidCommand,
    InvalidArguments,
    Resp,
    Utf8,
}

/// Why an array could not be read as a command.
#[derive(Debug, Clone, PartialEq, Eq)]
pub enum CommandError {
    InvalidCommand(String),
    InvalidArguments(String),
    RespError(RespError),
    Utf8Error(String),
}

impl CommandError {
    /// The error as text.
    pub fn message(&self) -> String {
        match self {
            CommandError::InvalidCommand(d) => {
                let mut m = String::from_str("Invalid command: ");
                m.append(d.as_str());
                m
            },
            CommandError::InvalidArguments(d) => {
                let mut m = String::from_str("Invalid command arguments: ");
                m.append(d.as_str());
                m
            },
            CommandError::RespError(e) => e.message(),
            CommandError::Utf8Error(d) => d.clone(),
        }
    }

    pub open spec fn fault(&self) -> CmdFault {
        match self {
            CommandError::InvalidCommand(_) => CmdFault::InvalidCommand,
            CommandError::InvalidArguments(_) => CmdFault::InvalidArguments,
            CommandError::RespError(_) => CmdFault::Resp,
            CommandError::Utf8Error(_) => CmdFault::Utf8,
        }
    }
}

pub open spec fn lower(c: u8) -> u8 {
    if 65 <= c <= 90 {
        (c + 32) as u8
    } else {
        c
    }
}

/// `b` spells `name` (given in lower case), ignoring ASCII case.
pub open spec fn names_match(b: Seq<u8>, name: Seq<u8>) -> bool {
    b.len() == name.len() && forall|i: int| 0 <= i < b.len() ==> lower(#[trigger] b[i]) == name[i]
}

pub open spec fn name_get() -> Seq<u8> {
    seq![103u8, 101, 116]
}

pub open spec fn name_set() -> Seq<u8> {
    seq![115u8, 101, 116]
}

pub open spec fn name_echo() -> Seq<u8> {
    seq![101u8, 99, 104, 111]
}

pub open spec fn name_hget() -> Seq<u8> {
    seq![104u8, 103, 101, 116]
}

pub open spec fn name_hset() -> Seq<u8> {
    seq![104u8, 115, 101, 116]
}

pub open spec fn name_hgetall() -> Seq<u8> {
    seq![104u8, 103, 101, 116, 97, 108, 108]
}

pub open spec fn name_hmget() -> Seq<u8> {
    seq![104u8, 109, 103, 101, 116]
}

pub open spec fn name_sadd() -> Seq<u8> {
    seq![115u8, 97, 100, 100]
}

pub open spec fn name_sismember() -> Seq<u8> {
    seq![115u8, 105, 115, 109, 101, 109, 98, 101, 114]
}

/// What is wrong with the arity or the name of a command array, if anything.
/// With `variadic`, `n` is the least number of arguments.
pub open spec fn shape_fault(a: Seq<FrameView>, name: Seq<u8>, n: nat, variadic: bool) -> Option<
    CmdFault,
> {
    if (variadic && a.len() < n + 1) || (!variadic && a.len() != n + 1) {
        Some(CmdFault::InvalidArguments)
    } else {
        match a[0] {
            FrameView::Bulk(b) => if names_match(b, name) {
                None
            } else {
                Some(CmdFault::InvalidCommand)
            },
            _ => Some(CmdFault::InvalidCommand),
        }
    }
}

/// An argument that must be UTF-8 text in a bulk string.
pub open spec fn text_arg(f: FrameView) -> Result<Seq<char>, CmdFault> {
    match f {
        FrameView::Bulk(b) => if valid_utf8(b) {
            Ok(decode_utf8(b))
        } else {
            Err(CmdFault::Utf8)
        },
        _ => Err(CmdFault::InvalidArguments),
    }
}

/// Each of `s` read as text, or the first failure.
pub open spec fn text_args(s: Seq<FrameView>) -> Result<Seq<Seq<char>>, CmdFault>
    decreases s.len(),
{
    if s.len() == 0 {
        Ok(seq![])
    } else {
        match text_args(s.drop_last()) {
            Err(e) => Err(e),
            Ok(t) => match text_arg(s.last()) {
                Err(e) => Err(e),
                Ok(x) => Ok(t.push(x)),
            },
        }
    }
}

/// Every frame of `s` is a bulk string.
pub open spec fn all_bulk(s: Seq<FrameView>) -> bool {
    forall|i: int| 0 <= i < s.len() ==> (#[trigger] s[i]) is Bulk
}

/// A command as values.
pub enum CommandView {
    Get(Seq<char>),
    SetValue(Seq<char>, FrameView),
    Echo(Seq<char>),
    HGet(Seq<char>, Seq<char>),
    HSet(Seq<char>, Seq<char>, FrameView),
    HGetAll(Seq<char>),
    HMGet(Seq<char>, Seq<Seq<char>>),
    SAdd(Seq<char>, Seq<FrameView>),
    SIsMember(Seq<char>, FrameView),
}

pub open spec fn rest(a: Seq<FrameView>, from: int) -> Seq<FrameView> {
    a.subrange(from, a.len() as int)
}

/// Each command's reading of an array: arity and name first, then the arguments.
pub open spec fn get_spec(a: Seq<FrameView>) -> Result<CommandView, CmdFault> {
    match shape_fault(a, name_get(), 1, false) {
        Some(e) => Err(e),
        None => match text_arg(a[1]) {
            Err(e) => Err(e),
            Ok(k) => Ok(CommandView::Get(k)),
        },
    }
}

pub open spec fn set_spec(a: Seq<FrameView>) -> Result<CommandView, CmdFault> {
    match shape_fault(a, name_set(), 2, false) {
        Some(e) => Err(e),
        None => match text_arg(a[1]) {
            Err(e) => Err(e),
            Ok(k) => Ok(CommandView::SetValue(k, a[2])),
        },
    }
}

pub open spec fn echo_spec(a: Seq<FrameView>) -> Result<CommandView, CmdFault> {
    match shape_fault(a, name_echo(), 1, false) {
        Some(e) => Err(e),
        None => match text_arg(a[1]) {
            Err(e) => Err(e),
            Ok(m) => Ok(CommandView::Echo(m)),
        },
    }
}

pub open spec fn hget_spec(a: Seq<FrameView>) -> Result<CommandView, CmdFault> {
    match shape_fault(a, name_hget(), 2, false) {
        Some(e) => Err(e),
        None => match (text_arg(a[1]), text_arg(a[2])) {
            (Err(e), _) => Err(e),
            (Ok(_), Err(e)) => Err(e),
            (Ok(k), Ok(f)) => Ok(CommandView::HGet(k, f)),
        },
    }
}

pub open spec fn hset_spec(a: Seq<FrameView>) -> Result<CommandView, CmdFault> {
    match shape_fault(a, name_hset(), 3, false) {
        Some(e) => Err(e),
        None => match (text_arg(a[1]), text_arg(a[2])) {
            (Err(e), _) => Err(e),
            (Ok(_), Err(e)) => Err(e),
            (Ok(k), Ok(f)) => Ok(CommandView::HSet(k, f, a[3])),
        },
    }
}

pub open spec fn hgetall_spec(a: Seq<FrameView>) -> Result<CommandView, CmdFault> {
    match shape_fault(a, name_hgetall(), 1, false) {
        Some(e) => Err(e),
        None => match text_arg(a[1]) {
            Err(e) => Err(e),
            Ok(k) => Ok(CommandView::HGetAll(k)),
        },
    }
}

pub open spec fn hmget_spec(a: Seq<FrameView>) -> Result<CommandView, CmdFault> {
    match shape_fault(a, name_hmget(), 2, true) {
        Some(e) => Err(e),
        None => match (text_arg(a[1]), text_args(rest(a, 2))) {
            (Err(e), _) => Err(e),
            (Ok(_), Err(e)) => Err(e),
            (Ok(k), Ok(fs)) => Ok(CommandView::HMGet(k, fs)),
        },
    }
}

pub open spec fn sadd_spec(a: Seq<FrameView>) -> Result<CommandView, CmdFault> {
    match shape_fault(a, name_sadd(), 2, true) {
        Some(e) => Err(e),
        None => match text_arg(a[1]) {
            Err(e) => Err(e),
            Ok(k) => if all_bulk(rest(a, 2)) {
                Ok(CommandView::SAdd(k, rest(a, 2)))
            } else {
                Err(CmdFault::InvalidArguments)
            },
        },
    }
}

pub open spec fn sismember_spec(a: Seq<FrameView>) -> Result<CommandView, CmdFault> {
    match shape_fault(a, name_sismember(), 2, false) {
        Some(e) => Err(e),
        None => match text_arg(a[1]) {
            Err(e) => Err(e),
            Ok(k) => if a[2] is Bulk {
                Ok(CommandView::SIsMember(k, a[2]))
            } else {
                Err(CmdFault::InvalidArguments)
            },
        },
    }
}

/// The command an array stands for, chosen by its first element.
pub open spec fn command_spec(a: Seq<FrameView>) -> Result<CommandView, CmdFault> {
    if a.len() == 0 {
        Err(CmdFault::InvalidCommand)
    } else {
        match a[0] {
            FrameView::Bulk(b) => {
                if names_match(b, name_get()) {
                    get_spec(a)
                } else if names_match(b, name_set()) {
                    set_spec(a)
                } else if names_match(b, name_echo()) {
                    echo_spec(a)
                } else if names_match(b, name_hget()) {
                    hget_spec(a)
                } else if names_match(b, name_hset()) {
                    hset_spec(a)
                } else if names_match(b, name_hgetall()) {
                    hgetall_spec(a)
                } else if names_match(b, name_hmget()) {
                    hmget_spec(a)
                } else if names_match(b, name_sadd()) {
                    sadd_spec(a)
                } else if names_match(b, name_sismember()) {
                    sismember_spec(a)
                } else {
                    Err(CmdFault::InvalidCommand)
                }
            },
            _ => Err(CmdFault::InvalidCommand),
        }
    }
}

//     - GET key
#[derive(Debug)]
pub struct Get {
    pub key: String,
}

//     - SET key value
#[derive(Debug)]
pub struct SetCommand {
    pub key: String,
    pub value: RespFrame,
}

//     - ECHO message
#[derive(Debug)]
pub struct Echo {
    pub message: String,
}

//     - HGET key field
#[derive(Debug)]
pub struct HGet {
    pub key: String,
    pub field: String,
}

//     - HSET key field value
#[derive(Debug)]
pub struct HSet {
    pub key: String,
    pub field: String,
    pub value: RespFrame,
}

//     - HGETALL key; the fields always come in ascending order, `sort` or not
#[derive(Debug)]
pub struct HGetAll {
    pub key: String,
    pub sort: bool,
}

//     - HMGET key field [field ...]
#[derive(Debug)]
pub struct HMGet {
    pub key: String,
    pub fields: Vec<String>,
}

//     - SADD key member [member ...]
#[derive(Debug)]
pub struct SAdd {
    pub key: String,
    pub members: Vec<RespFrame>,
}

//     - SISMEMBER key member
#[derive(Debug)]
pub struct SIsMember {
    pub key: String,
    pub member: RespFrame,
}

#[derive(Debug)]
pub enum Command {
    Get(Get),
    SetCommand(SetCommand),
    Echo(Echo),
    HGet(HGet),
    HSet(HSet),
    HGetAll(HGetAll),
    HMGet(HMGet),
    SAdd(SAdd),
    SIsMember(SIsMember),
}

pub open spec fn strings_view(s: Seq<String>) -> Seq<Seq<char>> {
    s.map_values(|x: String| x@)
}

impl View for Command {
    type V = CommandView;

    open spec fn view(&self) -> CommandView {
        match self {
            Command::Get(c) => c@,
            Command::SetCommand(c) => c@,
            Command::Echo(c) => c@,
            Command::HGet(c) => c@,
            Command::HSet(c) => c@,
            Command::HGetAll(c) => c@,
            Command::HMGet(c) => c@,
            Command::SAdd(c) => c@,
            Command::SIsMember(c) => c@,
        }
    }
}

/// Whether `b` spells `name` (lower case), ignoring ASCII case.
fn name_is(b: &[u8], name: &[u8]) -> (r: bool)
    ensures
        r == names_match(b@, name@),
{
    if b.len() != name.len() {
        return false;
    }
    let mut i: usize = 0;
    while i < b.len()
        invariant
            i <= b.len(),
            b.len() == name.len(),
            forall|k: int| 0 <= k < i ==> lower(#[trigger] b@[k]) == name@[k],
        decreases b.len() - i,
    {
        let c = b[i];
        let l: u8 = if 65 <= c && c <= 90 {
            c + 32
        } else {
            c
        };
        if l != name[i] {
            assert(lower(b@[i as int]) != name@[i as int]);
            return false;
        }
        i += 1;
    }
    true
}

/// Checks the arity and the name of a command array; with `variadic`, `n_args` is a minimum.
pub fn validate_command(frames: &RespArray, name: &[u8], n_args: usize, variadic: bool) -> (r:
    Result<(), CommandError>)
    ensures
        match shape_fault(frames@, name@, n_args as nat, variadic) {
            Some(e) => r matches Err(x) && x.fault() == e,
            None => r is Ok,
        },
{
    proof {
        lemma_frames_view(frames.0@);
    }
    let len = frames.0.len();
    let bad_arity = if variadic {
        len == 0 || len - 1 < n_args
    } else {
        len == 0 || len - 1 != n_args
    };
    if bad_arity {
        return Err(CommandError::InvalidArguments("wrong number of arguments".to_string()));
    }
    match &frames.0[0] {
        RespFrame::BulkString(b) => {
            if name_is(b.0.as_slice(), name) {
                Ok(())
            } else {
                Err(CommandError::InvalidCommand("unexpected command name".to_string()))
            }
        },
        _ => Err(CommandError::InvalidCommand("command name must be a bulk string".to_string())),
    }
}

/// Argument `i` as text.
fn text_at(frames: &RespArray, i: usize) -> (r: Result<String, CommandError>)
    requires
        i < frames@.len(),
    ensures
        match text_arg(frames@[i as int]) {
            Ok(t) => r matches Ok(s) && s@ == t,
            Err(e) => r matches Err(x) && x.fault() == e,
        },
{
    proof {
        lemma_frames_view(frames.0@);
    }
    match &frames.0[i] {
        RespFrame::BulkString(b) => {
            let bytes = crate::scan::copy_range(b.0.as_slice(), 0, b.0.len());
            assert(bytes@ =~= b.0@);
            match utf8_to_string(bytes) {
                Some(s) => Ok(s),
                None => Err(CommandError::Utf8Error("argument is not valid UTF-8".to_string())),
            }
        },
        _ => Err(CommandError::InvalidArguments("argument must be a bulk string".to_string())),
    }
}

/// The frames of `frames` from position `start` on.
pub fn extract_args(frames: RespArray, start: usize) -> (r: Result<Vec<RespFrame>, CommandError>)
    ensures
        r matches Ok(v) && frames_view(v@) == if start <= frames@.len() {
            frames@.subrange(start as int, frames@.len() as int)
        } else {
            Seq::empty()
        },
{
    let mut all = frames.0;
    proof {
        lemma_frames_view(all@);
    }
    if start >= all.len() {
        let none: Vec<RespFrame> = Vec::new();
        assert(frames_view(none@) =~= frames_view(all@).subrange(
            all@.len() as int,
            all@.len() as int,
        ));
        return Ok(none);
    }
    let ghost whole = all@;
    let tail = all.split_off(start);
    proof {
        lemma_frames_view(tail@);
        assert(frames_view(tail@) =~= frames_view(whole).subrange(start as int, whole.len() as int));
    }
    Ok(tail)
}

fn lit_get() -> (r: [u8; 3])
    ensures
        r@ == name_get(),
{
    let r = [103u8, 101, 116];
    assert(r@ =~= name_get());
    r
}

fn lit_set() -> (r: [u8; 3])
    ensures
        r@ == name_set(),
{
    let r = [115u8, 101, 116];
    assert(r@ =~= name_set());
    r
}

fn lit_echo() -> (r: [u8; 4])
    ensures
        r@ == name_echo(),
{
    let r = [101u8, 99, 104, 111];
    assert(r@ =~= name_echo());
    r
}

fn lit_hget() -> (r: [u8; 4])
    ensures
        r@ == name_hget(),
{
    let r = [104u8, 103, 101, 116];
    assert(r@ =~= name_hget());
    r
}

fn lit_hset() -> (r: [u8; 4])
    ensures
        r@ == name_hset(),
{
    let r = [104u8, 115, 101, 116];
    assert(r@ =~= name_hset());
    r
}

fn lit_hgetall() -> (r: [u8; 7])
    ensures
        r@ == name_hgetall(),
{
    let r = [104u8, 103, 101, 116, 97, 108, 108];
    assert(r@ =~= name_hgetall());
    r
}

fn lit_hmget() -> (r: [u8; 5])
    ensures
        r@ == name_hmget(),
{
    let r = [104u8, 109, 103, 101, 116];
    assert(r@ =~= name_hmget());
    r
}

fn lit_sadd() -> (r: [u8; 4])
    ensures
        r@ == name_sadd(),
{
    let r = [115u8, 97, 100, 100];
    assert(r@ =~= name_sadd());
    r
}

fn lit_sismember() -> (r: [u8; 9])
    ensures
        r@ == name_sismember(),
{
    let r = [115u8, 105, 115, 109, 101, 109, 98, 101, 114];
    assert(r@ =~= name_sismember());
    r
}

/// A parsed command or error against what its specification gives.
pub open spec fn parsed_as<T: View<V = CommandView>>(
    r: Result<T, CommandError>,
    s: Result<CommandView, CmdFault>,
) -> bool {
    match r {
        Ok(c) => s == Ok::<CommandView, CmdFault>(c@),
        Err(e) => s == Err::<CommandView, CmdFault>(e.fault()),
    }
}

impl View for Get {
    type V = CommandView;

    open spec fn view(&self) -> CommandView {
        CommandView::Get(self.key@)
    }
}

impl View for SetCommand {
    type V = CommandView;

    open spec fn view(&self) -> CommandView {
        CommandView::SetValue(self.key@, self.value@)
    }
}

impl View for Echo {
    type V = CommandView;

    open spec fn view(&self) -> CommandView {
        CommandView::Echo(self.message@)
    }
}

impl View for HGet {
    type V = CommandView;

    open spec fn view(&self) -> CommandView {
        CommandView::HGet(self.key@, self.field@)
    }
}

impl View for HSet {
    type V = CommandView;

    open spec fn view(&self) -> CommandView {
        CommandView::HSet(self.key@, self.field@, self.value@)
    }
}

impl View for HGetAll {
    type V = CommandView;

    open spec fn view(&self) -> CommandView {
        CommandView::HGetAll(self.key@)
    }
}

impl View for HMGet {
    type V = CommandView;

    open spec fn view(&self) -> CommandView {
        CommandView::HMGet(self.key@, strings_view(self.fields@))
    }
}

impl View for SAdd {
    type V = CommandView;

    open spec fn view(&self) -> CommandView {
        CommandView::SAdd(self.key@, frames_view(self.members@))
    }
}

impl View for SIsMember {
    type V = CommandView;

    open spec fn view(&self) -> CommandView {
        CommandView::SIsMember(self.key@, self.member@)
    }
}

impl Get {
    pub fn try_from(arr: RespArray) -> (r: Result<Get, CommandError>)
        ensures
            parsed_as(r, get_spec(arr@)),
    {
        if let Err(e) = validate_command(&arr, &lit_get(), 1, false) {
            return Err(e);
        }
        match text_at(&arr, 1) {
            Err(e) => Err(e),
            Ok(key) => Ok(Get { key }),
        }
    }
}

impl SetCommand {
    pub fn try_from(arr: RespArray) -> (r: Result<SetCommand, CommandError>)
        ensures
            parsed_as(r, set_spec(arr@)),
    {
        if let Err(e) = validate_command(&arr, &lit_set(), 2, false) {
            return Err(e);
        }
        proof {
            lemma_frames_view(arr.0@);
        }
        match text_at(&arr, 1) {
            Err(e) => Err(e),
            Ok(key) => Ok(SetCommand { key, value: copy_frame(&arr.0[2]) }),
        }
    }
}

impl Echo {
    pub fn try_from(arr: RespArray) -> (r: Result<Echo, CommandError>)
        ensures
            parsed_as(r, echo_spec(arr@)),
    {
        if let Err(e) = validate_command(&arr, &lit_echo(), 1, false) {
            return Err(e);
        }
        match text_at(&arr, 1) {
            Err(e) => Err(e),
            Ok(message) => Ok(Echo { message }),
        }
    }
}

impl HGet {
    pub fn try_from(arr: RespArray) -> (r: Result<HGet, CommandError>)
        ensures
            parsed_as(r, hget_spec(arr@)),
    {
        if let Err(e) = validate_command(&arr, &lit_hget(), 2, false) {
            return Err(e);
        }
        let key = match text_at(&arr, 1) {
            Err(e) => return Err(e),
            Ok(k) => k,
        };
        match text_at(&arr, 2) {
            Err(e) => Err(e),
            Ok(field) => Ok(HGet { key, field }),
        }
    }
}

impl HSet {
    pub fn try_from(arr: RespArray) -> (r: Result<HSet, CommandError>)
        ensures
            parsed_as(r, hset_spec(arr@)),
    {
        if let Err(e) = validate_command(&arr, &lit_hset(), 3, false) {
            return Err(e);
        }
        proof {
            lemma_frames_view(arr.0@);
        }
        let key = match text_at(&arr, 1) {
            Err(e) => return Err(e),
            Ok(k) => k,
        };
        match text_at(&arr, 2) {
            Err(e) => Err(e),
            Ok(field) => Ok(HSet { key, field, value: copy_frame(&arr.0[3]) }),
        }
    }
}

impl HGetAll {
    pub fn try_from(arr: RespArray) -> (r: Result<HGetAll, CommandError>)
        ensures
            parsed_as(r, hgetall_spec(arr@)),
    {
        if let Err(e) = validate_command(&arr, &lit_hgetall(), 1, false) {
            return Err(e);
        }
        match text_at(&arr, 1) {
            Err(e) => Err(e),
            Ok(key) => Ok(HGetAll { key, sort: true }),
        }
    }
}

/// A failure in a prefix of the arguments is the failure of them all.
proof fn lemma_text_args_prefix(s: Seq<FrameView>, j: int)
    requires
        0 <= j <= s.len(),
        text_args(s.subrange(0, j)) is Err,
    ensures
        text_args(s) == text_args(s.subrange(0, j)),
    decreases s.len() - j,
{
    if j < s.len() {
        assert(s.subrange(0, j + 1).drop_last() =~= s.subrange(0, j));
        lemma_text_args_prefix(s, j + 1);
    } else {
        assert(s.subrange(0, j) =~= s);
    }
}

impl HMGet {
    pub fn try_from(arr: RespArray) -> (r: Result<HMGet, CommandError>)
        ensures
            parsed_as(r, hmget_spec(arr@)),
    {
        if let Err(e) = validate_command(&arr, &lit_hmget(), 2, true) {
            return Err(e);
        }
        let key = match text_at(&arr, 1) {
            Err(e) => return Err(e),
            Ok(k) => k,
        };
        proof {
            lemma_frames_view(arr.0@);
            assert(rest(arr@, 2).subrange(0, 0) =~= Seq::<FrameView>::empty());
        }
        let ghost tail = rest(arr@, 2);
        let mut fields: Vec<String> = Vec::new();
        assert(strings_view(fields@) =~= Seq::<Seq<char>>::empty());
        let mut i: usize = 2;
        while i < arr.0.len()
            invariant
                2 <= i <= arr.0.len(),
                arr@.len() == arr.0.len(),
                tail == rest(arr@, 2),
                shape_fault(arr@, name_hmget(), 2, true) is None,
                text_arg(arr@[1]) == Ok::<Seq<char>, CmdFault>(key@),
                text_args(tail.subrange(0, i - 2)) == Ok::<Seq<Seq<char>>, CmdFault>(
                    strings_view(fields@),
                ),
            decreases arr.0.len() - i,
        {
            proof {
                assert(tail.subrange(0, i - 1).drop_last() =~= tail.subrange(0, i - 2));
                assert(tail[i - 2] == arr@[i as int]);
            }
            match text_at(&arr, i) {
                Err(e) => {
                    proof {
                        assert(tail.subrange(0, i - 1).last() == tail[i - 2]);
                        assert(text_args(tail.subrange(0, i - 1)) == Err::<Seq<Seq<char>>, CmdFault>(
                            e.fault(),
                        ));
                        lemma_text_args_prefix(tail, i - 1);
                    }
                    return Err(e);
                },
                Ok(f) => {
                    proof {
                        assert(strings_view(fields@.push(f)) =~= strings_view(fields@).push(f@));
                    }
                    fields.push(f);
                },
            }
            i += 1;
        }
        assert(tail.subrange(0, i - 2) =~= tail);
        Ok(HMGet { key, fields })
    }
}

impl SAdd {
    pub fn try_from(arr: RespArray) -> (r: Result<SAdd, CommandError>)
        ensures
            parsed_as(r, sadd_spec(arr@)),
    {
        if let Err(e) = validate_command(&arr, &lit_sadd(), 2, true) {
            return Err(e);
        }
        let key = match text_at(&arr, 1) {
            Err(e) => return Err(e),
            Ok(k) => k,
        };
        proof {
            lemma_frames_view(arr.0@);
        }
        let ghost tail = rest(arr@, 2);
        let mut members: Vec<RespFrame> = Vec::new();
        let mut i: usize = 2;
        while i < arr.0.len()
            invariant
                2 <= i <= arr.0.len(),
                arr@.len() == arr.0.len(),
                forall|k: int| 0 <= k < arr.0.len() ==> #[trigger] arr@[k] == arr.0@[k]@,
                tail == rest(arr@, 2),
                shape_fault(arr@, name_sadd(), 2, true) is None,
                text_arg(arr@[1]) == Ok::<Seq<char>, CmdFault>(key@),
                frames_view(members@) == tail.subrange(0, i - 2),
                all_bulk(tail.subrange(0, i - 2)),
            decreases arr.0.len() - i,
        {
            match &arr.0[i] {
                RespFrame::BulkString(_) => {},
                _ => {
                    assert(tail[i - 2] == arr@[i as int]);
                    assert(!(tail[i - 2] is Bulk));
                    assert(!all_bulk(tail));
                    return Err(CommandError::InvalidArguments("member must be a bulk string".to_string()));
                },
            }
            let m = copy_frame(&arr.0[i]);
            proof {
                assert(members@.push(m).drop_last() =~= members@);
                assert(tail.subrange(0, i - 2).push(m@) =~= tail.subrange(0, i - 1));
            }
            members.push(m);
            i += 1;
        }
        assert(tail.subrange(0, i - 2) =~= tail);
        Ok(SAdd { key, members })
    }
}

impl SIsMember {
    pub fn try_from(arr: RespArray) -> (r: Result<SIsMember, CommandError>)
        ensures
            parsed_as(r, sismember_spec(arr@)),
    {
        if let Err(e) = validate_command(&arr, &lit_sismember(), 2, false) {
            return Err(e);
        }
        proof {
            lemma_frames_view(arr.0@);
        }
        let key = match text_at(&arr, 1) {
            Err(e) => return Err(e),
            Ok(k) => k,
        };
        match &arr.0[2] {
            RespFrame::BulkString(_) => Ok(SIsMember { key, member: copy_frame(&arr.0[2]) }),
            _ => Err(CommandError::InvalidArguments("member must be a bulk string".to_string())),
        }
    }
}

/// What a frame stands for as a command: only an array can be one.
pub open spec fn frame_command_spec(f: FrameView) -> Result<CommandView, CmdFault> {
    match f {
        FrameView::Array(a) => command_spec(a),
        _ => Err(CmdFault::InvalidCommand),
    }
}

impl Command {
    /// Reads an array whose first element names the command.
    pub fn try_from_array(arr: RespArray) -> (r: Result<Command, CommandError>)
        ensures
            parsed_as(r, command_spec(arr@)),
    {
        proof {
            lemma_frames_view(arr.0@);
        }
        if arr.0.len() == 0 {
            return Err(CommandError::InvalidCommand("empty command".to_string()));
        }
        let which: u8 = match &arr.0[0] {
            RespFrame::BulkString(b) => {
                let n = b.0.as_slice();
                if name_is(n, &lit_get()) {
                    1
                } else if name_is(n, &lit_set()) {
                    2
                } else if name_is(n, &lit_echo()) {
                    3
                } else if name_is(n, &lit_hget()) {
                    4
                } else if name_is(n, &lit_hset()) {
                    5
                } else if name_is(n, &lit_hgetall()) {
                    6
                } else if name_is(n, &lit_hmget()) {
                    7
                } else if name_is(n, &lit_sadd()) {
                    8
                } else if name_is(n, &lit_sismember()) {
                    9
                } else {
                    0
                }
            },
            _ => 0,
        };
        if which == 1 {
            match Get::try_from(arr) {
                Ok(c) => Ok(Command::Get(c)),
                Err(e) => Err(e),
            }
        } else if which == 2 {
            match SetCommand::try_from(arr) {
                Ok(c) => Ok(Command::SetCommand(c)),
                Err(e) => Err(e),
            }
        } else if which == 3 {
            match Echo::try_from(arr) {
                Ok(c) => Ok(Command::Echo(c)),
                Err(e) => Err(e),
            }
        } else if which == 4 {
            match HGet::try_from(arr) {
                Ok(c) => Ok(Command::HGet(c)),
                Err(e) => Err(e),
            }
        } else if which == 5 {
            match HSet::try_from(arr) {
                Ok(c) => Ok(Command::HSet(c)),
                Err(e) => Err(e),
            }
        } else if which == 6 {
            match HGetAll::try_from(arr) {
                Ok(c) => Ok(Command::HGetAll(c)),
                Err(e) => Err(e),
            }
        } else if which == 7 {
            match HMGet::try_from(arr) {
                Ok(c) => Ok(Command::HMGet(c)),
                Err(e) => Err(e),
            }
        } else if which == 8 {
            match SAdd::try_from(arr) {
                Ok(c) => Ok(Command::SAdd(c)),
                Err(e) => Err(e),
            }
        } else if which == 9 {
            match SIsMember::try_from(arr) {
                Ok(c) => Ok(Command::SIsMember(c)),
                Err(e) => Err(e),
            }
        } else {
            Err(CommandError::InvalidCommand("unknown command".to_string()))
        }
    }

    /// Reads a decoded frame as a command.
    pub fn try_from(frame: RespFrame) -> (r: Result<Command, CommandError>)
        ensures
            parsed_as(r, frame_command_spec(frame@)),
    {
        match frame {
            RespFrame::Array(arr) => Command::try_from_array(arr),
            _ => Err(CommandError::InvalidCommand("command must be an array".to_string())),
        }
    }
}

} // verus!
