//! The editor's command terminal: its editable state, the commands it can
//! emit, and the parsing of an entered line into a command. Key handling and
//! rendering live with the caller.
use vstd::prelude::*;
use crate::text::push_char;

verus! {

/// How many spaces the text holds; splitting on a space yields one more
/// segment than this.
pub open spec fn space_count(s: Seq<char>) -> nat
    decreases s.len(),
{
    if s.len() == 0 {
        0
    } else {
        (if s[0] == ' ' {
            1nat
        } else {
            0nat
        }) + space_count(s.drop_first())
    }
}

proof fn lemma_space_count_push(s: Seq<char>, c: char)
    ensures
        space_count(s.push(c)) == space_count(s) + (if c == ' ' {
            1nat
        } else {
            0nat
        }),
    decreases s.len(),
{
    if s.len() == 0 {
        assert(s.push(c)[0] == c);
        assert(s.push(c).drop_first() =~= Seq::<char>::empty());
        assert(space_count(Seq::<char>::empty()) == 0);
        assert(space_count(s) == 0);
    } else {
        assert(s.push(c)[0] == s[0]);
        assert(s.push(c).drop_first() =~= s.drop_first().push(c));
        lemma_space_count_push(s.drop_first(), c);
        assert(space_count(s.push(c)) == (if s[0] == ' ' {
            1nat
        } else {
            0nat
        }) + space_count(s.drop_first().push(c)));
    }
}

/// Position of the first space at or after `i`, or the length when none.
pub open spec fn first_space_from(s: Seq<char>, i: int) -> int
    decreases s.len() - i,
{
    if i < 0 || i >= s.len() {
        s.len() as int
    } else if s[i] == ' ' {
        i
    } else {
        first_space_from(s, i + 1)
    }
}

/// Whether `c` is a decimal digit, and its value.
pub open spec fn is_digit(c: char) -> bool {
    48 <= c as u32 <= 57
}

pub open spec fn digit_of(c: char) -> nat {
    (c as u32 - 48) as nat
}

/// The value of a run of decimal digits, most significant first.
pub open spec fn digits_val(s: Seq<char>) -> nat
    decreases s.len(),
{
    if s.len() == 0 {
        0
    } else {
        digits_val(s.drop_last()) * 10 + digit_of(s.last())
    }
}

/// Appending digits never shrinks the value.
proof fn lemma_digits_val_grows(s: Seq<char>, n: int)
    requires
        0 <= n <= s.len(),
    ensures
        digits_val(s) >= digits_val(s.take(n)),
    decreases s.len() - n,
{
    if n < s.len() {
        lemma_digits_val_grows(s, n + 1);
        assert(s.take(n + 1).drop_last() =~= s.take(n));
        assert(s.take(n + 1).last() == s[n]);
    } else {
        assert(s.take(n) =~= s);
    }
}

/// A nonempty run of decimal digits.
pub open spec fn all_digits(s: Seq<char>) -> bool {
    s.len() > 0 && forall|i: int| 0 <= i < s.len() ==> is_digit(#[trigger] s[i])
}

pub open spec fn parse_u32_digits(s: Seq<char>) -> Option<u32> {
    if all_digits(s) && digits_val(s) <= u32::MAX {
        Some(digits_val(s) as u32)
    } else {
        None
    }
}

/// What `str::parse::<u32>` accepts: an optional leading plus sign, then at
/// least one digit, with the value fitting in 32 bits.
pub open spec fn parse_u32_spec(s: Seq<char>) -> Option<u32> {
    if s.len() > 0 && s[0] == '+' {
        parse_u32_digits(s.drop_first())
    } else {
        parse_u32_digits(s)
    }
}

/// The line asks to load a level: the word `open`, one space, a name.
pub open spec fn is_open_cmd(s: Seq<char>) -> bool {
    s.len() >= 5 && s[0] == 'o' && s[1] == 'p' && s[2] == 'e' && s[3] == 'n' && s[4] == ' '
        && space_count(s) == 1
}

/// The line sets the link a placed portal will carry.
pub open spec fn is_link_cmd(s: Seq<char>) -> bool {
    s.len() >= 5 && s[0] == 'l' && s[1] == 'i' && s[2] == 'n' && s[3] == 'k' && s[4] == ' '
        && space_count(s) == 1
}

/// The line sets the token cost a placed portal will ask for; its argument
/// must still parse for a command to come out.
pub open spec fn is_tokens_cmd(s: Seq<char>) -> bool {
    s.len() >= 7 && s[0] == 't' && s[1] == 'o' && s[2] == 'k' && s[3] == 'e' && s[4] == 'n' && s[5]
        == 's' && s[6] == ' ' && space_count(s) == 1
}

/// The line asks for new grid dimensions; both arguments must still parse for
/// a command to come out.
pub open spec fn is_dims_cmd(s: Seq<char>) -> bool {
    s.len() >= 5 && s[0] == 'd' && s[1] == 'i' && s[2] == 'm' && s[3] == 's' && s[4] == ' '
        && space_count(s) == 2
}

/// A single word beginning with `save`, `list`, `play` or `reset`; the word
/// test looks only at the prefix, as the splitting shell did.
pub open spec fn is_save_cmd(s: Seq<char>) -> bool {
    s.len() >= 4 && s[0] == 's' && s[1] == 'a' && s[2] == 'v' && s[3] == 'e' && space_count(s) == 0
}

pub open spec fn is_list_cmd(s: Seq<char>) -> bool {
    s.len() >= 4 && s[0] == 'l' && s[1] == 'i' && s[2] == 's' && s[3] == 't' && space_count(s) == 0
}

pub open spec fn is_play_cmd(s: Seq<char>) -> bool {
    s.len() >= 4 && s[0] == 'p' && s[1] == 'l' && s[2] == 'a' && s[3] == 'y' && space_count(s) == 0
}

pub open spec fn is_reset_cmd(s: Seq<char>) -> bool {
    s.len() >= 5 && s[0] == 'r' && s[1] == 'e' && s[2] == 's' && s[3] == 'e' && s[4] == 't'
        && space_count(s) == 0
}

/// No command comes out of the line: it matches no shape, or its numeric
/// arguments do not parse.
pub open spec fn parses_to_nothing(s: Seq<char>) -> bool {
    &&& !is_open_cmd(s)
    &&& !is_link_cmd(s)
    &&& !(is_tokens_cmd(s) && parse_u32_spec(s.skip(7)) is Some)
    &&& !is_save_cmd(s)
    &&& !is_list_cmd(s)
    &&& !is_play_cmd(s)
    &&& !is_reset_cmd(s)
    &&& !(is_dims_cmd(s) && parse_u32_spec(s.subrange(5, first_space_from(s, 5))) is Some
        && parse_u32_spec(s.skip(first_space_from(s, 5) + 1)) is Some)
}

proof fn lemma_no_space_zero(t: Seq<char>)
    requires
        forall|j: int| 0 <= j < t.len() ==> t[j] != ' ',
    ensures
        space_count(t) == 0,
    decreases t.len(),
{
    if t.len() > 0 {
        assert(forall|j: int| 0 <= j < t.drop_first().len() ==> t.drop_first()[j] == t[j + 1]);
        lemma_no_space_zero(t.drop_first());
    }
}

proof fn lemma_space_count_split(s: Seq<char>, i: int)
    requires
        0 <= i <= s.len(),
    ensures
        space_count(s) == space_count(s.take(i)) + space_count(s.skip(i)),
    decreases i,
{
    if i == 0 {
        assert(s.take(0) =~= Seq::<char>::empty());
        assert(s.skip(0) =~= s);
    } else {
        lemma_space_count_split(s, i - 1);
        lemma_space_count_push(s.take(i - 1), s[i - 1]);
        assert(s.take(i - 1).push(s[i - 1]) =~= s.take(i));
        assert(s.skip(i - 1)[0] == s[i - 1]);
        assert(s.skip(i - 1).drop_first() =~= s.skip(i));
    }
}

#[verifier::loop_isolation(false)]
fn count_spaces(cs: &Vec<char>) -> (r: usize)
    ensures
        r == space_count(cs@),
{
    let mut count: usize = 0;
    let mut i: usize = 0;
    while i < cs.len()
        invariant
            i <= cs@.len(),
            count <= i,
            count == space_count(cs@.take(i as int)),
        decreases cs@.len() - i,
    {
        proof {
            lemma_space_count_push(cs@.take(i as int), cs@[i as int]);
            assert(cs@.take(i as int).push(cs@[i as int]) =~= cs@.take(i as int + 1));
        }
        if cs[i] == ' ' {
            count += 1;
        }
        i += 1;
    }
    proof {
        assert(cs@.take(cs@.len() as int) =~= cs@);
    }
    count
}

#[verifier::loop_isolation(false)]
fn find_space_from(cs: &Vec<char>, from: usize) -> (r: usize)
    requires
        from <= cs@.len(),
    ensures
        r == first_space_from(cs@, from as int),
        from <= r <= cs@.len(),
        r < cs@.len() ==> cs@[r as int] == ' ',
        forall|j: int| from <= j < r ==> cs@[j] != ' ',
    decreases cs@.len() - from,
{
    let mut i: usize = from;
    while i < cs.len()
        invariant
            from <= i <= cs@.len(),
            first_space_from(cs@, from as int) == first_space_from(cs@, i as int),
            forall|j: int| from <= j < i ==> cs@[j] != ' ',
        decreases cs@.len() - i,
    {
        if cs[i] == ' ' {
            return i;
        }
        i += 1;
    }
    i
}

#[verifier::loop_isolation(false)]
fn string_from_range(cs: &Vec<char>, from: usize, to: usize) -> (r: String)
    requires
        from <= to <= cs@.len(),
    ensures
        r@ == cs@.subrange(from as int, to as int),
{
    let mut r = String::new();
    proof {
        assert(cs@.subrange(from as int, from as int) =~= Seq::<char>::empty());
    }
    let mut i: usize = from;
    while i < to
        invariant
            from <= i <= to <= cs@.len(),
            r@ == cs@.subrange(from as int, i as int),
        decreases to - i,
    {
        push_char(&mut r, cs[i]);
        proof {
            assert(cs@.subrange(from as int, i as int).push(cs@[i as int]) =~= cs@.subrange(
                from as int,
                i as int + 1,
            ));
        }
        i += 1;
    }
    r
}

#[verifier::loop_isolation(false)]
fn parse_u32_range(cs: &Vec<char>, from: usize, to: usize) -> (r: Option<u32>)
    requires
        from <= to <= cs@.len(),
    ensures
        r == parse_u32_spec(cs@.subrange(from as int, to as int)),
{
    let ghost whole = cs@.subrange(from as int, to as int);
    let start = if from < to && cs[from] == '+' {
        from + 1
    } else {
        from
    };
    let ghost digits = cs@.subrange(start as int, to as int);
    proof {
        if from < to && cs@[from as int] == '+' {
            assert(whole.drop_first() =~= digits);
        } else {
            assert(whole =~= digits);
        }
    }
    if start == to {
        return None;
    }
    let mut val: u32 = 0;
    proof {
        assert(digits.take(0) =~= Seq::<char>::empty());
    }
    let mut i: usize = start;
    while i < to
        invariant
            start <= i <= to <= cs@.len(),
            start < to,
            digits == cs@.subrange(start as int, to as int),
            forall|j: int| 0 <= j < i - start ==> is_digit(#[trigger] digits[j]),
            val == digits_val(digits.take(i - start)),
        decreases to - i,
    {
        let c = cs[i];
        proof {
            assert(digits[i - start] == cs@[i as int]);
        }
        let d = c as u32;
        if d < 48 || d > 57 {
            proof {
                assert(!is_digit(digits[i - start]));
                assert(!all_digits(digits));
            }
            return None;
        }
        let dv = d - 48;
        proof {
            assert(digits.take(i - start + 1).drop_last() =~= digits.take(i - start));
            assert(digits.take(i - start + 1).last() == digits[i - start]);
        }
        if val > (u32::MAX - dv) / 10 {
            proof {
                assert((val as int) * 10 + (dv as int) > 4294967295) by (nonlinear_arith)
                    requires
                        (val as int) > (4294967295 - (dv as int)) / 10,
                        0 <= (dv as int) <= 9,
                ;
                lemma_digits_val_grows(digits, i - start + 1);
            }
            return None;
        }
        proof {
            assert((val as int) * 10 + (dv as int) <= 4294967295) by (nonlinear_arith)
                requires
                    (val as int) <= (4294967295 - (dv as int)) / 10,
                    0 <= (dv as int) <= 9,
            ;
        }
        val = val * 10 + dv;
        i += 1;
    }
    proof {
        assert(digits.take((to - start) as int) =~= digits);
    }
    Some(val)
}

/// The terminal's state: commands entered so far, the lines shown (history
/// and printed feedback), the line being edited, and where in the entered
/// history the arrow keys currently point.
pub struct Terminal {
    pub terminal_history: Vec<String>,
    pub terminal_lines: Vec<String>,
    pub terminal_str: String,
    pub history_idx: Option<i32>,
}

/// A command the terminal can hand to the session.
pub enum TerminalCommand {
    New(String),
    Load(String),
    Save,
    Play,
    Dims(u32, u32),
    List,
    Link(String),
    Tokens(u32),
    Reset,
}

impl Terminal {
    /// A fresh terminal: nothing entered, nothing shown.
    pub fn new() -> (r: Terminal)
        ensures
            r.terminal_history@ == Seq::<String>::empty(),
            r.terminal_lines@ == Seq::<String>::empty(),
            r.terminal_str@ == Seq::<char>::empty(),
            r.history_idx is None,
    {
        Terminal {
            terminal_history: Vec::new(),
            terminal_lines: Vec::new(),
            terminal_str: String::new(),
            history_idx: None,
        }
    }

    /// Parse one entered line the way the terminal dispatches it: `open`,
    /// `link` and `tokens` take a single argument, `dims` takes two numbers,
    /// and `save`, `list`, `play` and `reset` stand alone. Anything else, and
    /// any numeric argument that does not parse, yields no command.
    #[verifier::loop_isolation(false)]
    pub fn parse_command(command: &str) -> (r: Option<TerminalCommand>)
        ensures
            match r {
                Some(TerminalCommand::Load(name)) => is_open_cmd(command@) && name@
                    == command@.skip(5),
                Some(TerminalCommand::Link(arg)) => is_link_cmd(command@) && arg@
                    == command@.skip(5),
                Some(TerminalCommand::Tokens(n)) => is_tokens_cmd(command@) && Some(n)
                    == parse_u32_spec(command@.skip(7)),
                Some(TerminalCommand::Dims(w, h)) => is_dims_cmd(command@) && Some(w)
                    == parse_u32_spec(
                    command@.subrange(5, first_space_from(command@, 5)),
                ) && Some(h) == parse_u32_spec(command@.skip(first_space_from(command@, 5) + 1)),
                Some(TerminalCommand::Save) => is_save_cmd(command@),
                Some(TerminalCommand::List) => is_list_cmd(command@),
                Some(TerminalCommand::Play) => is_play_cmd(command@),
                Some(TerminalCommand::Reset) => is_reset_cmd(command@),
                Some(TerminalCommand::New(_)) => false,
                None => parses_to_nothing(command@),
            },
    {
        let n = command.unicode_len();
        let mut cs: Vec<char> = Vec::new();
        let mut i: usize = 0;
        while i < n
            invariant
                i <= n,
                n == command@.len(),
                cs@ == command@.take(i as int),
            decreases n - i,
        {
            cs.push(command.get_char(i));
            proof {
                assert(command@.take(i as int).push(command@[i as int]) =~= command@.take(
                    i as int + 1,
                ));
            }
            i += 1;
        }
        proof {
            assert(cs@ =~= command@);
        }
        let spaces = count_spaces(&cs);
        if n >= 5 && cs[0] == 'o' && cs[1] == 'p' && cs[2] == 'e' && cs[3] == 'n' && cs[4] == ' '
            && spaces == 1 {
            let name = string_from_range(&cs, 5, n);
            proof {
                assert(cs@.subrange(5, n as int) =~= command@.skip(5));
            }
            return Some(TerminalCommand::Load(name));
        }
        if n >= 5 && cs[0] == 'l' && cs[1] == 'i' && cs[2] == 'n' && cs[3] == 'k' && cs[4] == ' '
            && spaces == 1 {
            let arg = string_from_range(&cs, 5, n);
            proof {
                assert(cs@.subrange(5, n as int) =~= command@.skip(5));
            }
            return Some(TerminalCommand::Link(arg));
        }
        if n >= 7 && cs[0] == 't' && cs[1] == 'o' && cs[2] == 'k' && cs[3] == 'e' && cs[4] == 'n'
            && cs[5] == 's' && cs[6] == ' ' && spaces == 1 {
            proof {
                assert(cs@.subrange(7, n as int) =~= command@.skip(7));
            }
            return match parse_u32_range(&cs, 7, n) {
                Some(v) => Some(TerminalCommand::Tokens(v)),
                None => None,
            };
        }
        if n >= 4 && cs[0] == 's' && cs[1] == 'a' && cs[2] == 'v' && cs[3] == 'e' && spaces == 0 {
            return Some(TerminalCommand::Save);
        }
        if n >= 4 && cs[0] == 'l' && cs[1] == 'i' && cs[2] == 's' && cs[3] == 't' && spaces == 0 {
            return Some(TerminalCommand::List);
        }
        if n >= 4 && cs[0] == 'p' && cs[1] == 'l' && cs[2] == 'a' && cs[3] == 'y' && spaces == 0 {
            return Some(TerminalCommand::Play);
        }
        if n >= 5 && cs[0] == 'r' && cs[1] == 'e' && cs[2] == 's' && cs[3] == 'e' && cs[4] == 't'
            && spaces == 0 {
            return Some(TerminalCommand::Reset);
        }
        if n >= 5 && cs[0] == 'd' && cs[1] == 'i' && cs[2] == 'm' && cs[3] == 's' && cs[4] == ' '
            && spaces == 2 {
            let k = find_space_from(&cs, 5);
            proof {
                // the second space exists: the prefix holds exactly one space,
                // so one more stands at or after column 5
                lemma_space_count_split(cs@, 5);
                assert(forall|j: int| 0 <= j < cs@.take(5).len() - 1 ==> cs@.take(5)[j] != ' ');
                lemma_no_space_zero(cs@.take(5).drop_last());
                lemma_space_count_push(cs@.take(5).drop_last(), ' ');
                assert(cs@.take(5).drop_last().push(' ') =~= cs@.take(5));
                assert(space_count(cs@.take(5)) == 1);
                assert(space_count(cs@.skip(5)) == 1);
                if k == n {
                    assert(forall|j: int|
                        0 <= j < cs@.skip(5).len() ==> cs@.skip(5)[j] == cs@[j + 5] && cs@[j + 5]
                            != ' ');
                    lemma_no_space_zero(cs@.skip(5));
                }
            }
            let first = parse_u32_range(&cs, 5, k);
            let second = parse_u32_range(&cs, k + 1, n);
            proof {
                assert(cs@.subrange(5, k as int) =~= command@.subrange(
                    5,
                    first_space_from(command@, 5),
                ));
                assert(cs@.subrange(k as int + 1, n as int) =~= command@.skip(
                    first_space_from(command@, 5) + 1,
                ));
            }
            return match (first, second) {
                (Some(new_w), Some(new_h)) => Some(TerminalCommand::Dims(new_w, new_h)),
                _ => None,
            };
        }
        None
    }

    /// Print a feedback line beneath the prompt.
    pub fn tprint(&mut self, msg: String)
        ensures
            final(self).terminal_lines@ == old(self).terminal_lines@.push(msg),
            final(self).terminal_history == old(self).terminal_history,
            final(self).terminal_str == old(self).terminal_str,
            final(self).history_idx == old(self).history_idx,
    {
        self.terminal_lines.push(msg)
    }
}

} // verus!
