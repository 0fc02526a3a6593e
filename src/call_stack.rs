//! Call stack kept for diagnostics.
use vstd::prelude::*;
use vstd::string::StringExecFns;

verus! {

/// The character of a decimal digit.
pub open spec fn digit_char(d: nat) -> char {
    if d == 0 {
        '0'
    } else if d == 1 {
        '1'
    } else if d == 2 {
        '2'
    } else if d == 3 {
        '3'
    } else if d == 4 {
        '4'
    } else if d == 5 {
        '5'
    } else if d == 6 {
        '6'
    } else if d == 7 {
        '7'
    } else if d == 8 {
        '8'
    } else {
        '9'
    }
}

/// Decimal notation of `n`, without leading zeros.
pub open spec fn decimal(n: nat) -> Seq<char>
    decreases n,
{
    if n < 10 {
        seq![digit_char(n)]
    } else {
        decimal(n / 10) + seq![digit_char(n % 10)]
    }
}

/// Description stored for a call: `call to <descr> at <file>:<line>`, with
/// the zero-based `line` shown one-based.
pub open spec fn call_text(call_descr: Seq<char>, file_name: Seq<char>, line: u32) -> Seq<char> {
    "call to "@ + call_descr + " at "@ + file_name + ":"@ + decimal((line + 1) as nat)
}

/// The frames' descriptions, innermost first, each on a new indented line.
pub open spec fn rendered(frames: Seq<(Seq<char>, Seq<char>)>) -> Seq<char>
    decreases frames.len(),
{
    if frames.len() == 0 {
        Seq::empty()
    } else {
        "\n    "@ + frames.last().1 + rendered(frames.drop_last())
    }
}

fn digit_str(d: u64) -> (r: &'static str)
    requires
        d < 10,
    ensures
        r@ == seq![digit_char(d as nat)],
{
    proof {
        reveal_strlit("0");
        reveal_strlit("1");
        reveal_strlit("2");
        reveal_strlit("3");
        reveal_strlit("4");
        reveal_strlit("5");
        reveal_strlit("6");
        reveal_strlit("7");
        reveal_strlit("8");
        reveal_strlit("9");
    }
    let r = match d {
        0 => "0",
        1 => "1",
        2 => "2",
        3 => "3",
        4 => "4",
        5 => "5",
        6 => "6",
        7 => "7",
        8 => "8",
        _ => "9",
    };
    assert(r@ =~= seq![digit_char(d as nat)]);
    r
}

/// Append the decimal notation of `n` to `s`.
fn push_decimal(s: &mut String, n: u64)
    ensures
        final(s)@ == old(s)@ + decimal(n as nat),
    decreases n,
{
    if n >= 10 {
        push_decimal(s, n / 10);
    }
    s.append(digit_str(n % 10));
    assert(final(s)@ =~= old(s)@ + decimal(n as nat));
}

/// Call stack: for each active call, the function's id and a description
/// of the call.
#[derive(Clone, Debug, PartialEq, Eq)]
pub struct CallStack {
    stack: Vec<(String, String)>,
}

impl View for CallStack {
    type V = Seq<(Seq<char>, Seq<char>)>;

    closed spec fn view(&self) -> Seq<(Seq<char>, Seq<char>)> {
        self.stack@.map_values(|f: (String, String)| (f.0@, f.1@))
    }
}

impl Default for CallStack {
    fn default() -> (r: CallStack)
        ensures
            r@ == Seq::<(Seq<char>, Seq<char>)>::empty(),
    {
        let r = CallStack { stack: Vec::new() };
        assert(r@ =~= Seq::<(Seq<char>, Seq<char>)>::empty());
        r
    }
}

impl CallStack {
    /// Push a frame for a call of `function_id` described by `call_descr`,
    /// made at zero-based `line` of `file_name`.
    pub fn push(&mut self, function_id: &str, call_descr: &str, file_name: &str, line: u32)
        ensures
            final(self)@ == old(self)@.push(
                (function_id@, call_text(call_descr@, file_name@, line)),
            ),
    {
        let mut descr = String::new();
        descr.append("call to ");
        descr.append(call_descr);
        descr.append(" at ");
        descr.append(file_name);
        descr.append(":");
        push_decimal(&mut descr, line as u64 + 1);
        self.stack.push((function_id.to_owned(), descr));
        assert(self@ =~= old(self)@.push((function_id@, call_text(call_descr@, file_name@, line))));
    }

    /// Test if the call stack holds a frame of the function `function_id`.
    pub fn contains(&self, function_id: &str) -> (r: bool)
        ensures
            r == exists|i: int| 0 <= i < self@.len() && (#[trigger] self@[i]).0 == function_id@,
    {
        let id = function_id.to_owned();
        let mut i: usize = 0;
        while i < self.stack.len()
            invariant
                i <= self@.len(),
                self@.len() == self.stack@.len(),
                id@ == function_id@,
                forall|j: int| 0 <= j < i ==> (#[trigger] self@[j]).0 != function_id@,
            decreases self.stack@.len() - i,
        {
            assert(self@[i as int].0 == self.stack@[i as int].0@);
            if self.stack[i].0 == id {
                return true;
            }
            i += 1;
        }
        false
    }

    /// The call stack as text: the innermost call first, each frame on a
    /// line of its own that begins with a newline.
    pub fn print_with_newline_before(&self) -> (r: String)
        ensures
            r@ == rendered(self@),
    {
        let mut out = String::new();
        let mut i: usize = self.stack.len();
        assert(self@.take(self@.len() as int) =~= self@);
        while i > 0
            invariant
                i <= self@.len(),
                self@.len() == self.stack@.len(),
                out@ + rendered(self@.take(i as int)) == rendered(self@),
            decreases i,
        {
            let ghost before = out@;
            let ghost t = self@.take(i as int);
            assert(t.drop_last() =~= self@.take(i - 1));
            assert(t.last().1 == self.stack@[i - 1].1@);
            out.append("\n    ");
            out.append(self.stack[i - 1].1.as_str());
            assert(out@ + rendered(self@.take(i - 1)) =~= before + rendered(t));
            i -= 1;
        }
        assert(out@ + rendered(self@.take(0)) =~= out@);
        out
    }
}

} // verus!
