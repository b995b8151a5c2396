use std::sync::mpsc::{Receiver, RecvError};
use vstd::prelude::*;
use vstd::string::StringExecFns;
use vstd::utf8::encode_utf8;

pub use std::sync::mpsc::Sender;

verus! {

#[verifier::external_type_specification]
#[verifier::external_body]
#[verifier::reject_recursive_types(T)]
pub struct ExReceiver<T>(Receiver<T>);

#[verifier::external_type_specification]
#[verifier::external_body]
pub struct ExRecvError(RecvError);

/// Calls `Receiver::recv`: blocks until a message arrives on the channel, or fails once
/// every sender is gone. What arrives is decided by the other threads; nothing is stated
/// of it.
#[verifier::external_body]
fn receive(msgs: &Receiver<Msg>) -> Result<Msg, RecvError> {
    msgs.recv()
}

/// The receiving end of the channel on which progress messages travel.
pub struct Reporter {
    msgs: Receiver<Msg>,
}

impl Reporter {
    pub fn new(receiver: Receiver<Msg>) -> (r: Self)
        ensures
            r.receiver() == receiver,
    {
        Self { msgs: receiver }
    }

    /// The channel this reporter listens on.
    pub closed spec fn receiver(self) -> Receiver<Msg> {
        self.msgs
    }

    /// The next message, once one arrives; an error once every sender is gone.
    pub fn next(&self) -> Result<Msg, RecvError> {
        receive(&self.msgs)
    }
}

/// A progress message.
pub struct Msg(String);

impl View for Msg {
    type V = Seq<char>;

    closed spec fn view(&self) -> Seq<char> {
        self.0@
    }
}

/// `n` copies of `c`.
pub open spec fn repeated(c: char, n: nat) -> Seq<char> {
    Seq::new(n, |i: int| c)
}

/// The framed heading made of `text`: a rule of 80 dashes between `!`s, the line
/// `! text` padded with spaces to byte column 81 and closed with `!`, and the rule again.
pub open spec fn heading(text: Seq<char>) -> Seq<char> {
    let rule = seq!['!'] + repeated('-', 80) + seq!['!', '\n'];
    let middle = seq!['!', ' '] + text + repeated(' ', (79 - encode_utf8(text).len()) as nat)
        + seq!['!', '\n'];
    rule + middle + rule
}

/// Appends `n` copies of the one-character string `unit` to `s`.
fn push_repeated(s: &mut String, unit: &str, n: usize)
    requires
        unit@.len() == 1,
    ensures
        final(s)@ == old(s)@ + repeated(unit@[0], n as nat),
{
    for t in 0..n
        invariant
            unit@.len() == 1,
            s@ == old(s)@ + repeated(unit@[0], t as nat),
    {
        s.append(unit);
        assert(old(s)@ + repeated(unit@[0], (t + 1) as nat) =~= old(s)@ + repeated(unit@[0], t as nat)
            + unit@);
    }
}

impl Msg {
    pub fn new(msg: String) -> (m: Self)
        ensures
            m@ == msg@,
    {
        Self(msg)
    }

    /// The text of the message.
    pub fn as_str(&self) -> (r: &str)
        ensures
            r@ == self@,
    {
        self.0.as_str()
    }

    /// The message framed as a heading, see [`heading`]. The text may take at most 79
    /// bytes.
    pub fn make_heading(self) -> (m: Self)
        requires
            encode_utf8(self@).len() <= 79,
        ensures
            m@ == heading(self@),
    {
        let excl = "!";
        let dash = "-";
        let space = " ";
        let end = "!\n";
        let open = "! ";
        proof {
            reveal_strlit("!");
            reveal_strlit("-");
            reveal_strlit(" ");
            reveal_strlit("!\n");
            reveal_strlit("! ");
        }
        let mut line1 = String::from_str(excl);
        push_repeated(&mut line1, dash, 80);
        line1.append(end);
        let mut line2 = String::from_str(open);
        line2.append(self.0.as_str());
        let width = self.0.as_str().len();
        push_repeated(&mut line2, space, 79 - width);
        line2.append(end);
        let line3 = line1.clone();
        line1.append(line2.as_str());
        line1.append(line3.as_str());
        assert(line1@ =~= heading(self@));
        Self(line1)
    }
}

impl From<String> for Msg {
    fn from(value: String) -> (m: Self) {
        Self(value)
    }
}

impl vstd::std_specs::convert::FromSpecImpl<String> for Msg {
    open spec fn obeys_from_spec() -> bool {
        true
    }

    closed spec fn from_spec(v: String) -> Self {
        Msg(v)
    }
}

} // verus!
