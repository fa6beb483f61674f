//! Flash scripts in a terminal: how far a transfer is, and which port to use.

use vstd::prelude::*;

use crate::flash::run::{port_models, PortChoice, PortModel};
use crate::oeminfo::payload::text_of;
use crate::text;

verus! {

/// How wide the bar is that shows how far a transfer is.
pub const BAR_WIDTH: u64 = 30;

/// How much of `scale` a part is of a whole. Nothing is done completely.
pub open spec fn share(part: int, whole: int, scale: int) -> int {
    if whole == 0 {
        scale
    } else if part * scale > u64::MAX {
        u64::MAX as int / whole
    } else {
        part * scale / whole
    }
}

/// As much of a transfer as there can be.
pub open spec fn done_of(sent: u64, total: u64) -> u64 {
    if sent < total {
        sent
    } else {
        total
    }
}

/// `n` copies of a character.
pub open spec fn repeated(c: char, n: int) -> Seq<char> {
    Seq::new(n as nat, |i: int| c)
}

/// A text of at least three characters, with spaces before it.
pub open spec fn three_wide(s: Seq<char>) -> Seq<char> {
    if s.len() < 3 {
        repeated(' ', 3 - s.len()) + s
    } else {
        s
    }
}

/// The line that shows how far a transfer is.
pub open spec fn progress_text(sent: u64, total: u64) -> Seq<char> {
    let done = done_of(sent, total);
    let filled = share(done as int, total as int, BAR_WIDTH as int);
    "\r  ["@ + repeated('#', filled) + repeated('-', BAR_WIDTH - filled) + "] "@ + three_wide(
        text::decimal(share(done as int, total as int, 100) as nat),
    ) + "%  "@ + text::decimal(done as nat) + "/"@ + text::decimal(total as nat) + " bytes"@
}

proof fn lemma_share(part: int, whole: int, scale: int)
    requires
        0 <= part <= whole <= u64::MAX,
        0 <= scale,
    ensures
        0 <= share(part, whole, scale) <= scale,
{
    if whole > 0 {
        let product = part * scale;
        assert(0 <= product <= whole * scale) by (nonlinear_arith)
            requires
                0 <= part <= whole,
                0 <= scale,
                product == part * scale,
        ;
        let top: int = if product > u64::MAX {
            u64::MAX as int
        } else {
            product
        };
        assert(0 <= top / whole <= scale) by (nonlinear_arith)
            requires
                0 <= top <= whole * scale,
                whole > 0,
        ;
    }
}

fn compute_share(part: u64, whole: u64, scale: u64) -> (result: u64)
    requires
        part <= whole,
    ensures
        result == share(part as int, whole as int, scale as int),
        result <= scale,
{
    proof {
        lemma_share(part as int, whole as int, scale as int);
    }
    if whole == 0 {
        return scale;
    }
    let product: u64 = match part.checked_mul(scale) {
        Some(product) => product,
        None => u64::MAX,
    };
    product / whole
}

fn push_repeated(out: &mut Vec<char>, c: char, n: u64)
    ensures
        final(out)@ == old(out)@ + repeated(c, n as int),
{
    let mut i: u64 = 0;
    while i < n
        invariant
            i <= n,
            out@ == old(out)@ + repeated(c, i as int),
        decreases n - i,
    {
        out.push(c);
        i += 1;
        assert(out@ =~= old(out)@ + repeated(c, i as int));
    }
}

/// The line that shows how far a transfer is.
pub fn progress_line(sent: u64, total: u64) -> (line: String)
    ensures
        line@ == progress_text(sent, total),
{
    let done: u64 = if sent < total {
        sent
    } else {
        total
    };
    let filled: u64 = compute_share(done, total, BAR_WIDTH);
    let percent: u64 = compute_share(done, total, 100);
    let mut digits: Vec<char> = Vec::new();
    text::push_decimal(&mut digits, percent);
    assert(digits@ =~= text::decimal(percent as nat));
    let mut out: Vec<char> = Vec::new();
    text::append_text(&mut out, "\r  [");
    push_repeated(&mut out, '#', filled);
    push_repeated(&mut out, '-', BAR_WIDTH - filled);
    text::append_text(&mut out, "] ");
    let ghost before = out@;
    if digits.len() < 3 {
        push_repeated(&mut out, ' ', 3 - digits.len() as u64);
    }
    text::append_chars(&mut out, digits.as_slice());
    assert(out@ =~= before + three_wide(digits@));
    text::append_text(&mut out, "%  ");
    text::push_decimal(&mut out, done);
    text::append_text(&mut out, "/");
    text::push_decimal(&mut out, total);
    text::append_text(&mut out, " bytes");
    assert(out@ =~= progress_text(sent, total));
    text::string_of(out.as_slice())
}

// ---------------------------------------------------------------------------
// Answers
// ---------------------------------------------------------------------------

/// The first port with a name, whatever its ASCII letters' case.
pub open spec fn port_named(ports: Seq<PortModel>, name: Seq<char>, from: int) -> Option<int>
    decreases ports.len() - from,
{
    if from < 0 || from >= ports.len() {
        None
    } else if text::lowered(ports[from].name) == text::lowered(name) {
        Some(from)
    } else {
        port_named(ports, name, from + 1)
    }
}

/// The port that an answer chooses: by its number in the list, or by its name.
pub open spec fn chosen_by(ports: Seq<PortModel>, answer: Seq<char>) -> Option<int> {
    let given = text::trimmed(answer);
    if given.len() == 0 {
        None
    } else {
        match text::unsigned(given, 10, usize::MAX as nat) {
            Some(number) => if 1 <= number <= ports.len() {
                Some(number - 1)
            } else {
                port_named(ports, given, 0)
            },
            None => port_named(ports, given, 0),
        }
    }
}

fn find_port(ports: &Vec<PortChoice>, name: &[char]) -> (at: Option<usize>)
    ensures
        match at {
            Some(i) => i < ports@.len() && port_named(port_models(ports@), name@, 0) == Some(
                i as int,
            ),
            None => port_named(port_models(ports@), name@, 0) is None,
        },
{
    let ghost all = port_models(ports@);
    let wanted = text::lower(name);
    let mut n: usize = 0;
    while n < ports.len()
        invariant
            n <= ports@.len(),
            all == port_models(ports@),
            wanted@ == text::lowered(name@),
            port_named(all, name@, 0) == port_named(all, name@, n as int),
        decreases ports@.len() - n,
    {
        assert(all[n as int] == ports@[n as int]@);
        let chars = text::chars_of(ports[n].name.as_str());
        let small = text::lower(chars.as_slice());
        if text::same_chars(small.as_slice(), wanted.as_slice()) {
            return Some(n);
        }
        n += 1;
    }
    None
}

/// The port that an answer chooses, if it chooses one.
pub fn choose_port(ports: &Vec<PortChoice>, answer: &str) -> (port: Option<usize>)
    ensures
        match port {
            Some(i) => i < ports@.len() && chosen_by(port_models(ports@), answer@) == Some(
                i as int,
            ),
            None => chosen_by(port_models(ports@), answer@) is None,
        },
{
    let ghost all = port_models(ports@);
    assert(all.len() == ports@.len());
    let chars = text::chars_of(answer);
    let given = text::trim(chars.as_slice());
    if given.len() == 0 {
        return None;
    }
    if let Some(number) = text::parse_unsigned(given, 10, usize::MAX as u64) {
        if 1 <= number && number <= ports.len() as u64 {
            return Some((number - 1) as usize);
        }
    }
    find_port(ports, given)
}

/// Why an answer to a prompt is refused.
#[derive(Debug, Clone, Copy, PartialEq, Eq, Structural)]
pub enum AnswerProblem {
    NotAnAnswer,
    OtherPrompt,
    NothingChosen,
    NotOffered,
}

/// What is wrong with an answer to prompt `expected`, if anything is.
pub open spec fn answer_problem(
    kind: Option<Seq<char>>,
    id: Option<u64>,
    expected: u64,
) -> Option<AnswerProblem> {
    if kind != Some("answer"@) {
        Some(AnswerProblem::NotAnAnswer)
    } else if id != Some(expected) {
        Some(AnswerProblem::OtherPrompt)
    } else {
        None
    }
}

/// Checks that a message answers a prompt.
pub fn check_answer(kind: &Option<String>, id: Option<u64>, expected: u64) -> (checked: Result<
    (),
    AnswerProblem,
>)
    ensures
        match checked {
            Ok(()) => answer_problem(text_of(*kind), id, expected) is None,
            Err(problem) => answer_problem(text_of(*kind), id, expected) == Some(problem),
        },
{
    match kind {
        Some(kind) => {
            if !text::same_text(kind.as_str(), "answer") {
                return Err(AnswerProblem::NotAnAnswer);
            }
        },
        None => {
            return Err(AnswerProblem::NotAnAnswer);
        },
    }
    match id {
        Some(id) => {
            if id == expected {
                Ok(())
            } else {
                Err(AnswerProblem::OtherPrompt)
            }
        },
        None => Err(AnswerProblem::OtherPrompt),
    }
}

/// Checks that the port in an answer is one that was offered.
pub fn check_choice(ports: &Vec<PortChoice>, choice: &Option<String>) -> (checked: Result<
    (),
    AnswerProblem,
>)
    ensures
        match checked {
            Ok(()) => choice is Some && crate::flash::run::has_port(
                port_models(ports@),
                choice->0@,
            ),
            Err(AnswerProblem::NothingChosen) => choice is None,
            Err(problem) => problem == AnswerProblem::NotOffered && choice is Some
                && !crate::flash::run::has_port(port_models(ports@), choice->0@),
        },
{
    let ghost all = port_models(ports@);
    match choice {
        Some(name) => {
            let mut n: usize = 0;
            while n < ports.len()
                invariant
                    n <= ports@.len(),
                    all == port_models(ports@),
                    choice is Some,
                    choice->0@ == name@,
                    forall|i: int| 0 <= i < n ==> (#[trigger] all[i]).name != name@,
                decreases ports@.len() - n,
            {
                assert(all[n as int] == ports@[n as int]@);
                if text::same_text(ports[n].name.as_str(), name.as_str()) {
                    assert(crate::flash::run::has_port(all, name@));
                    return Ok(());
                }
                n += 1;
            }
            assert(all.len() == ports@.len());
            Err(AnswerProblem::NotOffered)
        },
        None => Err(AnswerProblem::NothingChosen),
    }
}

/// The bar of a transfer is filled, and the percentage given, in the measure of what
/// is sent: as the whole part of thirty times and of a hundred times that, divided
/// by all there is. A transfer of nothing is done.
pub proof fn law_progress_is_in_measure(part: int, whole: int, scale: int)
    requires
        0 <= part <= whole,
        0 < whole,
        0 <= scale,
        part * scale <= u64::MAX,
    ensures
        share(0, 0, scale) == scale,
        share(part, whole, scale) * whole <= part * scale,
        part * scale < (share(part, whole, scale) + 1) * whole,
        share(whole, whole, scale) == scale || whole * scale > u64::MAX,
{
    let q = part * scale / whole;
    assert(q * whole <= part * scale && part * scale < (q + 1) * whole) by (nonlinear_arith)
        requires
            whole > 0,
            q == part * scale / whole,
    ;
    assert(whole * scale / whole == scale) by (nonlinear_arith)
        requires
            whole > 0,
    ;
}

/// The line of a transfer goes back to its start and shows a bar of thirty marks, as
/// many of them filled as are done, the percentage in three places, and the bytes
/// that are done and those there are.
pub proof fn law_progress_lines_show_the_bar(sent: u64, total: u64)
    ensures
        ({
            let line = progress_text(sent, total);
            let done = if sent < total {
                sent
            } else {
                total
            };
            let filled = share(done as int, total as int, 30);
            &&& 0 <= filled <= 30
            &&& line[0] == '\r' && line[3] == '[' && line[34] == ']'
            &&& forall|i: int| 4 <= i < 4 + filled ==> #[trigger] line[i] == '#'
            &&& forall|i: int| 4 + filled <= i < 34 ==> #[trigger] line[i] == '-'
            &&& line.skip(36) == three_wide(
                text::decimal(share(done as int, total as int, 100) as nat),
            ) + seq!['%', ' ', ' '] + text::decimal(done as nat) + seq!['/'] + text::decimal(
                total as nat,
            ) + seq![' ', 'b', 'y', 't', 'e', 's']
        }),
{
    reveal_strlit("\r  [");
    reveal_strlit("] ");
    reveal_strlit("%  ");
    reveal_strlit("/");
    reveal_strlit(" bytes");
    let done = done_of(sent, total);
    lemma_share(done as int, total as int, 30);
    let line = progress_text(sent, total);
    assert(line.skip(36) =~= three_wide(
        text::decimal(share(done as int, total as int, 100) as nat),
    ) + seq!['%', ' ', ' '] + text::decimal(done as nat) + seq!['/'] + text::decimal(total as nat)
        + seq![' ', 'b', 'y', 't', 'e', 's']);
}

/// An answer chooses the port with the number that it gives, counted from 1, and
/// else the first port with the name that it gives, whatever the case of its
/// letters. An empty answer chooses none.
pub proof fn law_answers_choose_ports(ports: Seq<PortModel>, answer: Seq<char>, n: nat)
    requires
        ports.len() <= usize::MAX,
    ensures
        text::trimmed(answer).len() == 0 ==> chosen_by(ports, answer) is None,
        text::trimmed(answer) == text::decimal(n) && 1 <= n <= ports.len() ==> chosen_by(
            ports,
            answer,
        ) == Some(n - 1),
        ({
            let given = text::trimmed(answer);
            given.len() > 0 && text::unsigned(given, 10, usize::MAX as nat) is None ==> match chosen_by(
                ports,
                answer,
            ) {
                Some(i) => {
                    &&& 0 <= i < ports.len() && text::lowered(ports[i].name) == text::lowered(given)
                    &&& forall|k: int|
                        0 <= k < i ==> text::lowered((#[trigger] ports[k]).name) != text::lowered(
                            given,
                        )
                },
                None => forall|k: int|
                    0 <= k < ports.len() ==> text::lowered((#[trigger] ports[k]).name)
                        != text::lowered(given),
            }
        }),
{
    text::law_written_numbers_read_back(n);
    let written = text::decimal(n);
    assert(text::is_digit_in(written[0], 10));
    assert(text::without_plus(written) == written);
    lemma_port_named(ports, text::trimmed(answer), 0);
}

proof fn lemma_port_named(ports: Seq<PortModel>, name: Seq<char>, from: int)
    requires
        from >= 0,
    ensures
        match port_named(ports, name, from) {
            Some(i) => {
                &&& from <= i < ports.len() && text::lowered(ports[i].name) == text::lowered(name)
                &&& forall|k: int|
                    from <= k < i ==> text::lowered((#[trigger] ports[k]).name) != text::lowered(
                        name,
                    )
            },
            None => forall|k: int|
                from <= k < ports.len() ==> text::lowered((#[trigger] ports[k]).name)
                    != text::lowered(name),
        },
    decreases ports.len() - from,
{
    if from < ports.len() && text::lowered(ports[from].name) != text::lowered(name) {
        lemma_port_named(ports, name, from + 1);
    }
}

/// A message answers a prompt where it says that it is an answer and names the
/// prompt.
pub proof fn law_answers_name_their_prompt(kind: Option<Seq<char>>, id: Option<u64>, expected: u64)
    ensures
        answer_problem(kind, id, expected) is None <==> kind == Some("answer"@) && id == Some(
            expected,
        ),
        answer_problem(kind, id, expected) == Some(AnswerProblem::NotAnAnswer) <==> kind != Some(
            "answer"@,
        ),
{
}

} // verus!
