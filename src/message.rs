//! The append-only message log.
use vstd::prelude::*;
use crate::colour::SerializableColour;
use vstd::string::*;

verus! {

/// The game's message log, oldest message first.
pub struct Messages {
    messages: Vec<(String, SerializableColour)>,
}

impl View for Messages {
    type V = Seq<(Seq<char>, SerializableColour)>;

    closed spec fn view(&self) -> Self::V {
        self.messages@.map_values(|m: (String, SerializableColour)| (m.0@, m.1))
    }
}

impl Messages {
    pub fn new() -> (m: Self)
        ensures
            m@ == Seq::<(Seq<char>, SerializableColour)>::empty(),
    {
        let r = Self { messages: Vec::new() };
        assert(r@ =~= Seq::<(Seq<char>, SerializableColour)>::empty());
        r
    }

    /// Appends a message at the end of the log.
    pub fn add(&mut self, message: String, colour: SerializableColour)
        ensures
            final(self)@ == old(self)@.push((message@, colour)),
    {
        self.messages.push((message, colour));
        assert(final(self)@ =~= old(self)@.push((message@, colour)));
    }

    /// Number of messages in the log.
    pub fn len(&self) -> (n: usize)
        ensures
            n == self@.len(),
    {
        self.messages.len()
    }

    /// The text and colour of message `i`, oldest first.
    pub fn get(&self, i: usize) -> (m: (&str, SerializableColour))
        requires
            i < self@.len(),
        ensures
            m.0@ == self@[i as int].0,
            m.1 == self@[i as int].1,
    {
        let e = &self.messages[i];
        (e.0.as_str(), e.1)
    }
}

} // verus!

verus! {

/// The character of a decimal digit.
pub open spec fn digit_char(d: int) -> char {
    if d == 0 { '0' } else if d == 1 { '1' } else if d == 2 { '2' } else if d == 3 { '3' } else if d == 4 { '4' }
    else if d == 5 { '5' } else if d == 6 { '6' } else if d == 7 { '7' } else if d == 8 { '8' } else { '9' }
}

/// The decimal digits of a natural number, most significant first.
pub open spec fn digits(n: nat) -> Seq<char>
    decreases n,
{
    if n < 10 {
        seq![digit_char(n as int)]
    } else {
        digits(n / 10).push(digit_char((n % 10) as int))
    }
}

/// An integer written in decimal, with a leading '-' when negative.
pub open spec fn decimal(n: int) -> Seq<char> {
    if n < 0 {
        seq!['-'] + digits((-n) as nat)
    } else {
        digits(n as nat)
    }
}

fn digit_text(d: u64) -> (s: &'static str)
    requires
        d < 10,
    ensures
        s@ == seq![digit_char(d as int)],
{
    proof {
        reveal_strlit("0");
        reveal_strlit("1");
        reveal_strlit("2");
        reveal_strlit("3");
        reveal_strlit("4");
        reveal_strlit("5");
        reveal_strlit("6");
        reveal_strlit("7");
        reveal_strlit("8");
        reveal_strlit("9");
    }
    let s = if d == 0 { "0" } else if d == 1 { "1" } else if d == 2 { "2" } else if d == 3 { "3" } else if d == 4 { "4" }
    else if d == 5 { "5" } else if d == 6 { "6" } else if d == 7 { "7" } else if d == 8 { "8" } else { "9" };
    assert(s@ =~= seq![digit_char(d as int)]);
    s
}

fn digits_text(n: u64) -> (s: String)
    ensures
        s@ == digits(n as nat),
    decreases n,
{
    if n < 10 {
        String::from_str(digit_text(n))
    } else {
        let head = digits_text(n / 10);
        head.concat(digit_text(n % 10))
    }
}

/// An integer written in decimal.
pub fn decimal_text(n: i64) -> (s: String)
    requires
        n > i64::MIN,
    ensures
        s@ == decimal(n as int),
{
    proof {
        reveal_strlit("-");
    }
    if n < 0 {
        let t = digits_text((-n) as u64);
        let r = String::from_str("-").concat(t.as_str());
        assert(r@ =~= decimal(n as int));
        r
    } else {
        digits_text(n as u64)
    }
}

} // verus!
