//! The wire protocol: a frame is read as a command by its first word, and a
//! response is written back as bytes.
use vstd::prelude::*;
use vstd::utf8::*;
use vstd::string::*;
use crate::text::{
    ascii_upper, bytes_same_up_to_ascii_case, decode_lossy, first_word, first_word_of,
    is_white_space, lemma_first_word_ignores_case, lemma_first_word_of_padded,
    lemma_first_word_shape, lemma_lossy_ascii, lemma_lossy_concat, lemma_lossy_same_case,
    lemma_skip_white_bounds, lemma_skip_word_bounds, lemma_upper_ascii, lemma_upper_same_case,
    lossy_by_runs, skip_white, to_upper, upper_by_chars,
};

verus! {

/// A request read from one frame.
pub enum Command {
    Ping,
    Unknown(String),
}

/// A reply written to one frame.
pub enum Response {
    Pong,
    Error(String),
}

/// The word that asks for a `Pong`.
pub open spec fn ping_word() -> Seq<char> {
    seq!['P', 'I', 'N', 'G']
}

/// The bytes of a `Pong` reply.
pub open spec fn pong_bytes() -> Seq<u8> {
    seq![0x50u8, 0x4Fu8, 0x4Eu8, 0x47u8]
}

/// The bytes that open an error reply: `ERR` and a space.
pub open spec fn error_prefix() -> Seq<u8> {
    seq![0x45u8, 0x52u8, 0x52u8, 0x20u8]
}

/// The text that opens the error message for an unknown command.
pub open spec fn unknown_prefix() -> Seq<char> {
    seq!['u', 'n', 'k', 'n', 'o', 'w', 'n', ' ', 'c', 'o', 'm', 'm', 'a', 'n', 'd', ' ', '\'']
}

/// The error message for an unknown command that was read as `word`.
pub open spec fn unknown_message(word: Seq<char>) -> Seq<char> {
    unknown_prefix() + word + seq!['\'']
}

/// The word a frame is read as: the first whitespace-separated word of its
/// lossy UTF-8 decoding, upper-cased.
pub open spec fn frame_word(frame: Seq<u8>) -> Seq<char> {
    upper_by_chars(first_word(lossy_by_runs(frame)))
}

/// Every byte is below 0x80.
pub open spec fn is_ascii_bytes(bytes: Seq<u8>) -> bool {
    forall|i: int| 0 <= i < bytes.len() ==> #[trigger] bytes[i] < 0x80
}

/// The characters that ASCII bytes stand for.
pub open spec fn ascii_chars(bytes: Seq<u8>) -> Seq<char> {
    bytes.map_values(|b: u8| b as char)
}

/// The word an ASCII frame is read as, computed with ASCII case rules only.
pub open spec fn ascii_frame_word(frame: Seq<u8>) -> Seq<char> {
    first_word(ascii_chars(frame)).map_values(|c: char| ascii_upper(c))
}

/// The bytes of the reply to a frame that was read as `word`.
pub open spec fn reply_bytes(word: Seq<char>) -> Seq<u8> {
    if word == ping_word() {
        pong_bytes()
    } else {
        error_prefix() + encode_utf8(unknown_message(word))
    }
}

impl Command {
    /// This command is what the upper-cased word `word` reads as.
    pub open spec fn reads(self, word: Seq<char>) -> bool {
        match self {
            Command::Ping => word == ping_word(),
            Command::Unknown(w) => word != ping_word() && w@ == word,
        }
    }

    /// Reads an upper-cased word as a command: `PING` is `Ping`, anything
    /// else is `Unknown` with the word itself.
    pub fn from_word(word: String) -> (command: Command)
        ensures
            command.reads(word@),
    {
        let w = word.as_str();
        let n = w.unicode_len();
        let is_ping = n == 4 && w.get_char(0) == 'P' && w.get_char(1) == 'I' && w.get_char(2) == 'N'
            && w.get_char(3) == 'G';
        if is_ping {
            assert(word@ =~= ping_word());
            Command::Ping
        } else {
            assert(word@ != ping_word()) by {
                if word@ == ping_word() {
                    assert(word@[0] == 'P' && word@[1] == 'I' && word@[2] == 'N' && word@[3] == 'G');
                }
            }
            Command::Unknown(word)
        }
    }

    /// Reads one frame: its bytes are decoded as UTF-8 (invalid sequences
    /// replaced), the first whitespace-separated word is taken (empty when
    /// there is none) and upper-cased, and that word is read as a command.
    pub fn from_bytes(bytes: &[u8]) -> (command: Command)
        ensures
            command.reads(frame_word(bytes@)),
            is_ascii_bytes(bytes@) ==> command.reads(ascii_frame_word(bytes@)),
    {
        let text = decode_lossy(bytes);
        let word = first_word_of(text.as_str());
        let upper = to_upper(word.as_str());
        proof {
            if is_ascii_bytes(bytes@) {
                lemma_lossy_ascii(bytes@);
                assert(ascii_chars(bytes@) =~= bytes@.map_values(|x: u8| x as char));
                lemma_ascii_chars_ascii(bytes@);
                lemma_first_word_ascii(ascii_chars(bytes@));
                lemma_upper_ascii(first_word(ascii_chars(bytes@)));
            }
        }
        Command::from_word(upper)
    }
}

impl Response {
    /// The bytes this reply is written as: `PONG`, or `ERR` and a space followed by
    /// the UTF-8 bytes of the message.
    pub open spec fn wire(self) -> Seq<u8> {
        match self {
            Response::Pong => pong_bytes(),
            Response::Error(msg) => error_prefix() + encode_utf8(msg@),
        }
    }

    /// Writes this reply as bytes.
    pub fn to_bytes(&self) -> (bytes: Vec<u8>)
        ensures
            bytes@ == self.wire(),
    {
        match self {
            Response::Pong => {
                let v: Vec<u8> = vec![0x50u8, 0x4Fu8, 0x4Eu8, 0x47u8];
                assert(v@ =~= pong_bytes());
                v
            },
            Response::Error(msg) => {
                let mut v: Vec<u8> = vec![0x45u8, 0x52u8, 0x52u8, 0x20u8];
                let body = msg.as_str().as_bytes();
                v.extend_from_slice(body);
                assert(v@ =~= error_prefix() + encode_utf8(msg@));
                v
            },
        }
    }
}

/// The reply to a command: `Pong` to `Ping`, and to an unknown command an
/// error that quotes the word it was read as.
pub fn respond(command: &Command) -> (response: Response)
    ensures
        match command {
            Command::Ping => response is Pong,
            Command::Unknown(w) => response matches Response::Error(m) && m@ == unknown_message(w@),
        },
{
    match command {
        Command::Ping => Response::Pong,
        Command::Unknown(w) => {
            let mut msg = "unknown command '".to_owned();
            msg.append(w.as_str());
            msg.append("'");
            proof {
                reveal_strlit("unknown command '");
                reveal_strlit("'");
                assert(msg@ =~= unknown_message(w@));
            }
            Response::Error(msg)
        },
    }
}

/// Answers one frame: reads it as a command and writes the reply's bytes.
pub fn handle_frame(frame: &[u8]) -> (reply: Vec<u8>)
    ensures
        reply@ == reply_bytes(frame_word(frame@)),
        is_ascii_bytes(frame@) ==> reply@ == reply_bytes(ascii_frame_word(frame@)),
{
    let command = Command::from_bytes(frame);
    let response = respond(&command);
    response.to_bytes()
}

/// What one read from a connection gave.
pub enum ReadOutcome {
    /// A whole frame.
    Frame(Vec<u8>),
    /// The read failed.
    Failed,
    /// The peer closed the stream.
    Closed,
}

/// What a connection does next.
pub enum Action {
    /// Send these bytes as one frame, then read again.
    Send(Vec<u8>),
    /// Close the connection.
    Stop,
}

/// Decides what a connection does after a read: a frame is answered, and a
/// failed read or the end of the stream ends the connection.
pub fn on_read(outcome: ReadOutcome) -> (action: Action)
    ensures
        match outcome {
            ReadOutcome::Frame(f) => action matches Action::Send(r) && r@ == reply_bytes(frame_word(f@)),
            _ => action is Stop,
        },
{
    match outcome {
        ReadOutcome::Frame(frame) => Action::Send(handle_frame(frame.as_slice())),
        ReadOutcome::Failed => Action::Stop,
        ReadOutcome::Closed => Action::Stop,
    }
}

/// Law: a frame is answered `PONG` exactly when it reads as `PING`; every
/// other frame is answered with bytes that start with `ERR `.
pub proof fn lemma_pong_only_for_ping(word: Seq<char>)
    ensures
        reply_bytes(word) == pong_bytes() <==> word == ping_word(),
        word != ping_word() ==> reply_bytes(word).subrange(0, 4) == error_prefix(),
{
    if word != ping_word() {
        let r = reply_bytes(word);
        assert(r[0] == 0x45u8);
        assert(pong_bytes()[0] == 0x50u8);
        assert(r.subrange(0, 4) =~= error_prefix());
    }
}

/// Law: changing the case of ASCII letters anywhere in a frame does not
/// change the word it is read as, so `from_bytes` reads both frames as the
/// same command; this holds of any bytes, ASCII or not.
pub proof fn lemma_frame_case_does_not_matter(a: Seq<u8>, b: Seq<u8>)
    requires
        bytes_same_up_to_ascii_case(a, b),
    ensures
        frame_word(a) == frame_word(b),
{
    lemma_lossy_same_case(a, b);
    lemma_first_word_ignores_case(lossy_by_runs(a), lossy_by_runs(b));
    lemma_upper_same_case(first_word(lossy_by_runs(a)), first_word(lossy_by_runs(b)));
}

/// Law: in a frame made of ASCII whitespace, a word, ASCII whitespace and
/// any remainder, only the word decides the command: the frame is read as
/// the word alone. The word is any bytes whose decoding is non-empty and
/// holds no whitespace; the remainder is any bytes at all.
pub proof fn lemma_first_word_decides(pre: Seq<u8>, word: Seq<u8>, sep: Seq<u8>, rest: Seq<u8>)
    requires
        forall|k: int| 0 <= k < pre.len() ==> #[trigger] pre[k] < 0x80 && is_white_space(pre[k] as char),
        lossy_by_runs(word).len() > 0,
        forall|k: int| 0 <= k < lossy_by_runs(word).len() ==> !is_white_space(#[trigger] lossy_by_runs(word)[k]),
        sep.len() > 0,
        forall|k: int| 0 <= k < sep.len() ==> #[trigger] sep[k] < 0x80 && is_white_space(sep[k] as char),
    ensures
        frame_word(pre + word + sep + rest) == frame_word(word),
{
    let w = lossy_by_runs(word);
    let q = lossy_by_runs(sep + rest);
    assert(pre + word + sep + rest =~= pre + (word + (sep + rest)));
    assert((sep + rest)[0] == sep[0]);
    lemma_lossy_concat(word, sep + rest);
    lemma_lossy_ascii(pre);
    let p = pre.map_values(|x: u8| x as char);
    assert(forall|k: int| 0 <= k < p.len() ==> is_white_space(#[trigger] p[k])) by {
        assert forall|k: int| 0 <= k < p.len() implies is_white_space(#[trigger] p[k]) by {
            assert(p[k] == pre[k] as char);
        }
    }
    lemma_lossy_prefix_ascii(pre, word + (sep + rest));
    assert(q[0] == sep[0] as char);
    lemma_first_word_of_padded(p, w, q);
    assert(lossy_by_runs(pre + word + sep + rest) == p + w + q);
    lemma_first_word_of_padded(Seq::<char>::empty(), w, Seq::<char>::empty());
    assert(Seq::<char>::empty() + w + Seq::<char>::empty() =~= w);
}

/// Decoding ASCII bytes and then anything is decoding each part alone.
proof fn lemma_lossy_prefix_ascii(pre: Seq<u8>, y: Seq<u8>)
    requires
        forall|k: int| 0 <= k < pre.len() ==> #[trigger] pre[k] < 0x80,
    ensures
        lossy_by_runs(pre + y) == pre.map_values(|x: u8| x as char) + lossy_by_runs(y),
    decreases pre.len(),
{
    if pre.len() > 0 {
        assert((pre + y)[0] == pre[0]);
        assert((pre + y).drop_first() =~= pre.drop_first() + y);
        lemma_lossy_prefix_ascii(pre.drop_first(), y);
        assert(lossy_by_runs(pre + y) =~= pre.map_values(|x: u8| x as char) + lossy_by_runs(y));
    } else {
        assert(pre + y =~= y);
        assert(pre.map_values(|x: u8| x as char) + lossy_by_runs(y) =~= lossy_by_runs(y));
    }
}

/// UTF-8 encoding distributes over concatenation.
pub proof fn lemma_encode_utf8_concat(a: Seq<char>, b: Seq<char>)
    ensures
        encode_utf8(a + b) == encode_utf8(a) + encode_utf8(b),
    decreases a.len(),
{
    if a.len() == 0 {
        assert(a + b =~= b);
        assert(encode_utf8(a) =~= Seq::<u8>::empty());
        assert(encode_utf8(a) + encode_utf8(b) =~= encode_utf8(b));
    } else {
        assert((a + b).drop_first() =~= a.drop_first() + b);
        assert((a + b)[0] == a[0]);
        lemma_encode_utf8_concat(a.drop_first(), b);
        assert(encode_utf8(a + b) =~= encode_utf8(a) + encode_utf8(b));
    }
}

/// Law: an error reply is valid UTF-8 text, and it decodes to `ERR`, a
/// space, and the message.
pub proof fn lemma_error_reply_decodes(msg: Seq<char>)
    ensures
        valid_utf8(error_prefix() + encode_utf8(msg)),
        decode_utf8(error_prefix() + encode_utf8(msg)) == seq!['E', 'R', 'R', ' '] + msg,
{
    let head = seq!['E', 'R', 'R', ' '];
    assert(is_ascii_chars(head));
    is_ascii_chars_encode_utf8(head);
    assert(encode_utf8(head) =~= error_prefix()) by {
        assert(encode_utf8(head)[0] == head[0] as u8);
        assert(encode_utf8(head)[1] == head[1] as u8);
        assert(encode_utf8(head)[2] == head[2] as u8);
        assert(encode_utf8(head)[3] == head[3] as u8);
    }
    lemma_encode_utf8_concat(head, msg);
    encode_utf8_valid_utf8(head + msg);
    encode_utf8_decode_utf8(head + msg);
}

/// Law: `ping` is recognised in any mix of upper and lower case.
pub proof fn lemma_ping_in_any_case(w: Seq<char>)
    requires
        w.len() == 4,
        w[0] == 'p' || w[0] == 'P',
        w[1] == 'i' || w[1] == 'I',
        w[2] == 'n' || w[2] == 'N',
        w[3] == 'g' || w[3] == 'G',
    ensures
        w.map_values(|c: char| ascii_upper(c)) == ping_word(),
{
    assert(w.map_values(|c: char| ascii_upper(c)) =~= ping_word());
}

/// Law: the word an ASCII frame is read as holds no whitespace and no
/// lower-case ASCII letter, so an `Unknown` command from such a frame is a
/// single upper-case word.
pub proof fn lemma_ascii_frame_word_is_upper(frame: Seq<u8>)
    ensures
        forall|k: int|
            0 <= k < ascii_frame_word(frame).len() ==> {
                let c = #[trigger] ascii_frame_word(frame)[k];
                &&& !is_white_space(c)
                &&& !('a' <= c <= 'z')
            },
{
    let w = first_word(ascii_chars(frame));
    lemma_first_word_shape(ascii_chars(frame));
    assert forall|k: int| 0 <= k < ascii_frame_word(frame).len() implies {
        let c = #[trigger] ascii_frame_word(frame)[k];
        &&& !is_white_space(c)
        &&& !('a' <= c <= 'z')
    } by {
        assert(!is_white_space(w[k]));
        assert(ascii_frame_word(frame)[k] == ascii_upper(w[k]));
    }
}

/// The characters that ASCII bytes stand for are ASCII.
proof fn lemma_ascii_chars_ascii(bytes: Seq<u8>)
    requires
        is_ascii_bytes(bytes),
    ensures
        is_ascii_chars(ascii_chars(bytes)),
{
    let cs = ascii_chars(bytes);
    assert forall|i: int| 0 <= i < cs.len() implies '\0' <= #[trigger] cs[i] <= '\u{7f}' by {
        assert(bytes[i] < 0x80);
    }
}

/// The first word of ASCII text is ASCII.
proof fn lemma_first_word_ascii(s: Seq<char>)
    requires
        is_ascii_chars(s),
    ensures
        is_ascii_chars(first_word(s)),
{
    let w = first_word(s);
    let start = skip_white(s, 0);
    lemma_skip_white_bounds(s, 0);
    lemma_skip_word_bounds(s, start);
    assert forall|i: int| 0 <= i < w.len() implies '\0' <= #[trigger] w[i] <= '\u{7f}' by {
        assert(w[i] == s[start + i]);
    }
}

} // verus!
