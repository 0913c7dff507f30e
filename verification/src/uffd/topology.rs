//! CPU topology: which CPUs a machine offers for a fault handler, relative to the faulting thread.
//!
//! Servicing a fault is a handoff between two threads, and what it costs varies with where they run:
//! waking a thread on the same logical CPU means the waker must be descheduled first, waking one on
//! another CPU is an inter-processor interrupt; SMT siblings share caches and execution resources.
//!
//! The kernel describes the topology in small text files of CPU lists, such as `0,4` or `0-3`.

use crate::text::{decimal, digit_of, digits, law_digits_write_the_number, push_decimal};
use vstd::prelude::*;
use vstd::string::StringExecFns;

verus! {

/// Where to put the handler relative to the faulting thread.
#[derive(Debug, Clone, Copy, PartialEq, Eq, Structural)]
pub enum Placement {
    /// Handler and faulter on the same logical CPU. Every fault forces a context switch.
    SameCpu,
    /// Handler on the SMT sibling of the faulter's core.
    SmtSibling,
    /// Handler on a different physical core.
    OtherCore,
}

impl Placement {
    /// What the placement is called.
    pub open spec fn words(self) -> Seq<char> {
        match self {
            Placement::SameCpu => "same logical CPU"@,
            Placement::SmtSibling => "SMT sibling"@,
            Placement::OtherCore => "different physical core"@,
        }
    }

    pub fn name(self) -> (r: &'static str)
        ensures
            r@ == self.words(),
    {
        match self {
            Placement::SameCpu => "same logical CPU",
            Placement::SmtSibling => "SMT sibling",
            Placement::OtherCore => "different physical core",
        }
    }
}

/// The characters with the Unicode property `White_Space`.
pub open spec fn is_space(c: char) -> bool {
    ||| '\u{9}' <= c <= '\u{d}'
    ||| c == ' '
    ||| c == '\u{85}'
    ||| c == '\u{a0}'
    ||| c == '\u{1680}'
    ||| '\u{2000}' <= c <= '\u{200a}'
    ||| c == '\u{2028}'
    ||| c == '\u{2029}'
    ||| c == '\u{202f}'
    ||| c == '\u{205f}'
    ||| c == '\u{3000}'
}

/// Is the character white space?
pub fn white_space(c: char) -> (r: bool)
    ensures
        r == is_space(c),
{
    ('\u{9}' <= c && c <= '\u{d}') || c == ' ' || c == '\u{85}' || c == '\u{a0}' || c == '\u{1680}'
        || ('\u{2000}' <= c && c <= '\u{200a}') || c == '\u{2028}' || c == '\u{2029}' || c
        == '\u{202f}' || c == '\u{205f}' || c == '\u{3000}'
}

/// `s` without the white space it begins with.
pub open spec fn trim_start(s: Seq<char>) -> Seq<char>
    decreases s.len(),
{
    if s.len() > 0 && is_space(s[0]) {
        trim_start(s.drop_first())
    } else {
        s
    }
}

/// `s` without the white space it ends with.
pub open spec fn trim_end(s: Seq<char>) -> Seq<char>
    decreases s.len(),
{
    if s.len() > 0 && is_space(s.last()) {
        trim_end(s.drop_last())
    } else {
        s
    }
}

/// `s` without the white space around it.
pub open spec fn trimmed(s: Seq<char>) -> Seq<char> {
    trim_end(trim_start(s))
}

/// The place of the first `c` in `s`, or its length if there is none.
pub open spec fn place_of(s: Seq<char>, c: char) -> nat
    decreases s.len(),
{
    if s.len() == 0 || s[0] == c {
        0
    } else {
        1 + place_of(s.drop_first(), c)
    }
}

/// The value of a decimal digit.
pub open spec fn digit_value(c: char) -> nat {
    (c as nat - '0' as nat) as nat
}

/// All of `s` are decimal digits.
pub open spec fn all_digits(s: Seq<char>) -> bool {
    forall|i: int| 0 <= i < s.len() ==> '0' <= #[trigger] s[i] <= '9'
}

/// The number that the digits write.
pub open spec fn value_of(s: Seq<char>) -> nat
    decreases s.len(),
{
    if s.len() == 0 {
        0
    } else {
        10 * value_of(s.drop_last()) + digit_value(s.last())
    }
}

/// The number that `s` writes, if it writes one that fits: digits, at least one, after a plus sign
/// or not.
pub open spec fn number_in(s: Seq<char>) -> Option<usize> {
    let body = if s.len() > 0 && s[0] == '+' {
        s.drop_first()
    } else {
        s
    };
    if body.len() > 0 && all_digits(body) && value_of(body) <= usize::MAX {
        Some(value_of(body) as usize)
    } else {
        None
    }
}

/// The numbers from `a` to `b`, both counted.
pub open spec fn from_to(a: usize, b: usize) -> Seq<usize> {
    Seq::new(
        if a <= b {
            (b - a + 1) as nat
        } else {
            0
        },
        |i: int| (a + i) as usize,
    )
}

/// The CPUs that one entry of a list stands for: a range, where it holds a hyphen, or one. An entry
/// that cannot be read stands for none.
pub open spec fn entry_cpus(part: Seq<char>) -> Seq<usize> {
    let at = place_of(part, '-') as int;
    if at < part.len() {
        match (number_in(trimmed(part.take(at))), number_in(trimmed(part.skip(at + 1)))) {
            (Some(a), Some(b)) => from_to(a, b),
            _ => Seq::empty(),
        }
    } else {
        match number_in(trimmed(part)) {
            Some(v) => seq![v],
            None => Seq::empty(),
        }
    }
}

/// The CPUs of the entries of `s`, which commas separate.
pub open spec fn entries_cpus(s: Seq<char>) -> Seq<usize>
    decreases s.len(),
{
    let at = place_of(s, ',') as int;
    if at < s.len() {
        entry_cpus(s.take(at)) + entries_cpus(s.skip(at + 1))
    } else {
        entry_cpus(s)
    }
}

/// The CPUs of a list. A file that could not be read lists none.
pub open spec fn listed(text: Option<Seq<char>>) -> Seq<usize> {
    match text {
        Some(s) => entries_cpus(trimmed(s)),
        None => Seq::empty(),
    }
}

/// The first CPU of a list, if it has one.
pub open spec fn first_listed(text: Option<Seq<char>>) -> Option<usize> {
    if listed(text).len() > 0 {
        Some(listed(text)[0])
    } else {
        None
    }
}

fn to_chars(s: &str) -> (r: Vec<char>)
    ensures
        r@ == s@,
{
    let mut out: Vec<char> = Vec::new();
    for c in it: s.chars()
        invariant
            out@ =~= it.seq().take(it.index() as int),
            it.seq() == s@,
    {
        out.push(c);
    }
    out
}

fn trim(s: &[char]) -> (r: &[char])
    ensures
        r@ == trimmed(s@),
{
    let n: usize = s.len();
    let mut i: usize = 0;
    assert(s@.skip(0) =~= s@);
    while i < n && white_space(s[i])
        invariant
            i <= n,
            n == s@.len(),
            trim_start(s@) == trim_start(s@.skip(i as int)),
        decreases n - i,
    {
        assert(s@.skip(i as int).drop_first() =~= s@.skip(i + 1));
        i += 1;
    }
    assert(trim_start(s@) == s@.skip(i as int));
    let mut j: usize = n;
    assert(s@.subrange(i as int, n as int) =~= s@.skip(i as int));
    while j > i && white_space(s[j - 1])
        invariant
            i <= j <= n,
            n == s@.len(),
            trim_end(s@.skip(i as int)) == trim_end(s@.subrange(i as int, j as int)),
        decreases j,
    {
        assert(s@.subrange(i as int, j as int).drop_last() =~= s@.subrange(i as int, j - 1));
        j -= 1;
    }
    &s[i..j]
}

fn find(s: &[char], c: char) -> (r: usize)
    ensures
        r == place_of(s@, c),
        r <= s@.len(),
        r < s@.len() ==> s@[r as int] == c,
{
    let n: usize = s.len();
    let mut i: usize = 0;
    assert(s@.skip(0) =~= s@);
    while i < n && s[i] != c
        invariant
            i <= n,
            n == s@.len(),
            place_of(s@, c) == i + place_of(s@.skip(i as int), c),
        decreases n - i,
    {
        assert(s@.skip(i as int).drop_first() =~= s@.skip(i + 1));
        i += 1;
    }
    i
}

fn number(s: &[char]) -> (r: Option<usize>)
    ensures
        r == number_in(s@),
{
    let n: usize = s.len();
    let from: usize = if n > 0 && s[0] == '+' {
        1
    } else {
        0
    };
    let ghost body = s@.skip(from as int);
    assert(from == 1 ==> s@.drop_first() =~= body);
    assert(from == 0 ==> s@ =~= body);
    if from == n {
        return None;
    }
    let mut v: usize = 0;
    let mut i: usize = from;
    while i < n
        invariant
            from <= i <= n,
            n == s@.len(),
            body == s@.skip(from as int),
            body.len() > 0,
            body == (if s@.len() > 0 && s@[0] == '+' {
                s@.drop_first()
            } else {
                s@
            }),
            all_digits(body.take(i - from)),
            v == value_of(body.take(i - from)),
        decreases n - i,
    {
        let c: char = s[i];
        proof {
            assert(body[i - from] == c);
            assert(body.take(i - from + 1).drop_last() =~= body.take(i - from));
            assert(body.take(i - from + 1).last() == c);
        }
        if !('0' <= c && c <= '9') {
            assert(!all_digits(body));
            return None;
        }
        let d: usize = (c as u32 - '0' as u32) as usize;
        let scaled: usize = match v.checked_mul(10) {
            Some(x) => x,
            None => {
                proof {
                    lemma_value_grows(body, i - from + 1);
                }
                return None;
            },
        };
        v = match scaled.checked_add(d) {
            Some(x) => x,
            None => {
                proof {
                    lemma_value_grows(body, i - from + 1);
                }
                return None;
            },
        };
        proof {
            assert forall|k: int| 0 <= k < i - from + 1 implies '0' <= #[trigger] body.take(
                i - from + 1,
            )[k] <= '9' by {
                if k < i - from {
                    assert(body.take(i - from)[k] == body[k]);
                }
            }
        }
        i += 1;
    }
    assert(body.take(n - from) =~= body);
    Some(v)
}

/// More digits make no smaller number.
proof fn lemma_value_grows(s: Seq<char>, n: int)
    requires
        0 <= n <= s.len(),
    ensures
        value_of(s.take(n)) <= value_of(s),
    decreases s.len(),
{
    if n < s.len() {
        lemma_value_grows(s.drop_last(), n);
        assert(s.drop_last().take(n) =~= s.take(n));
    } else {
        assert(s.take(n) =~= s);
    }
}

fn push_entry(out: &mut Vec<usize>, part: &[char])
    ensures
        final(out)@ == old(out)@ + entry_cpus(part@),
{
    let at: usize = find(part, '-');
    if at < part.len() {
        assert(part@.subrange(0, at as int) =~= part@.take(at as int));
        assert(part@.subrange(at + 1, part@.len() as int) =~= part@.skip(at + 1));
        let a = number(trim(&part[0..at]));
        let b = number(trim(&part[at + 1..part.len()]));
        match (a, b) {
            (Some(a), Some(b)) => {
                push_range(out, a, b);
            },
            _ => {
                assert(out@ =~= old(out)@ + entry_cpus(part@));
            },
        }
    } else {
        match number(trim(part)) {
            Some(v) => {
                out.push(v);
            },
            None => {},
        }
        assert(out@ =~= old(out)@ + entry_cpus(part@));
    }
}

fn push_range(out: &mut Vec<usize>, a: usize, b: usize)
    ensures
        final(out)@ == old(out)@ + from_to(a, b),
{
    if a > b {
        assert(out@ =~= old(out)@ + from_to(a, b));
        return;
    }
    let mut next: usize = a;
    let ghost mut n: nat = 0;
    while next < b
        invariant
            a <= next <= b,
            n == next - a,
            out@ =~= old(out)@ + from_to(a, b).take(n as int),
        decreases b - next,
    {
        out.push(next);
        next += 1;
        proof {
            n = n + 1;
        }
    }
    out.push(b);
    assert(out@ =~= old(out)@ + from_to(a, b));
}

/// The CPUs of a list such as `0,4` or `0-3`, from the text of its file.
pub fn read_list(text: Option<&str>) -> (r: Vec<usize>)
    ensures
        r@ == listed(
            match text {
                Some(s) => Some(s@),
                None => None,
            },
        ),
{
    let mut out: Vec<usize> = Vec::new();
    let text: &str = match text {
        Some(s) => s,
        None => {
            return out;
        },
    };
    let chars = to_chars(text);
    let s = trim(chars.as_slice());
    let ghost all = entries_cpus(s@);
    let mut from: usize = 0;
    assert(s@.skip(0) =~= s@);
    assert(out@ + entries_cpus(s@) =~= entries_cpus(s@));
    loop
        invariant_except_break
            from <= s@.len(),
            all == entries_cpus(s@),
            s@ == trimmed(text@),
            all == out@ + entries_cpus(s@.skip(from as int)),
        ensures
            out@ == entries_cpus(trimmed(text@)),
        decreases s@.len() - from,
    {
        let n: usize = s.len();
        let rest = &s[from..n];
        assert(rest@ =~= s@.skip(from as int));
        let at: usize = find(rest, ',');
        if at < rest.len() {
            let ghost tail = entries_cpus(rest@.skip(at + 1));
            let ghost before = out@;
            assert(rest@.subrange(0, at as int) =~= rest@.take(at as int));
            push_entry(&mut out, &rest[0..at]);
            assert(before + (entry_cpus(rest@.take(at as int)) + tail) =~= out@ + tail);
            assert(rest@.skip(at + 1) =~= s@.skip(from + at + 1));
            from = from + at + 1;
        } else {
            push_entry(&mut out, rest);
            break;
        }
    }
    out
}

/// The first CPU of a list, if it has one, from the text of its file.
pub fn read_first(text: Option<&str>) -> (r: Option<usize>)
    ensures
        r == first_listed(
            match text {
                Some(s) => Some(s@),
                None => None,
            },
        ),
{
    let list = read_list(text);
    if list.len() > 0 {
        Some(list[0])
    } else {
        None
    }
}

/// The CPU numbers this machine offers for each placement, relative to a chosen faulter CPU.
#[derive(Debug, Clone, Copy, PartialEq, Eq, Structural)]
pub struct Topology {
    pub faulter: usize,
    pub smt_sibling: Option<usize>,
    pub other_core: Option<usize>,
}

/// The text of a file that could be read.
pub open spec fn contents(text: Option<String>) -> Option<Seq<char>> {
    match text {
        Some(s) => Some(s@),
        None => None,
    }
}

/// `c` is the first of the CPUs `0..n` with the property, or there is none and `c` is `None`.
pub open spec fn is_first(c: Option<usize>, n: nat, property: spec_fn(usize) -> bool) -> bool {
    match c {
        Some(i) => i < n && property(i) && forall|j: usize| j < i ==> !(#[trigger] property(j)),
        None => forall|j: usize| j < n ==> !(#[trigger] property(j)),
    }
}

/// The sibling that a list names: the first on it that is not the faulter itself.
pub open spec fn is_sibling(c: Option<usize>, list: Seq<usize>, faulter: usize) -> bool {
    match c {
        Some(v) => exists|i: int|
            0 <= i < list.len() && #[trigger] list[i] == v && v != faulter && forall|j: int|
                0 <= j < i ==> #[trigger] list[j] == faulter,
        None => forall|i: int| 0 <= i < list.len() ==> #[trigger] list[i] == faulter,
    }
}

/// CPU `c` is known to be on another physical core than the faulter: it is neither the faulter nor
/// its sibling, and both core files hold a number, of which the two first differ. A core that is not
/// known is no other core.
pub open spec fn on_other_core(
    c: usize,
    faulter: usize,
    sibling: Option<usize>,
    my_core: Option<Seq<char>>,
    cores: Seq<Option<String>>,
) -> bool {
    &&& c != faulter
    &&& Some(c) != sibling
    &&& first_listed(contents(cores[c as int])) is Some
    &&& first_listed(my_core) is Some
    &&& first_listed(contents(cores[c as int])) != first_listed(my_core)
}

impl Topology {
    /// Pick one CPU for each placement, from the texts of the kernel's files: the list of the
    /// faulter's siblings, the faulter's core, and the core of each CPU that is online, in order. A
    /// file that could not be read is `None`.
    ///
    /// A placement that this machine cannot offer is `None`: reporting the absence is better than
    /// substituting something else and labelling the result as though it were the thing asked for.
    pub fn detect(
        faulter: usize,
        siblings: Option<&str>,
        my_core: Option<&str>,
        cores: &Vec<Option<String>>,
    ) -> (r: Self)
        ensures
            r.faulter == faulter,
            is_sibling(
                r.smt_sibling,
                listed(
                    match siblings {
                        Some(s) => Some(s@),
                        None => None,
                    },
                ),
                faulter,
            ),
            is_first(
                r.other_core,
                cores@.len(),
                |c: usize|
                    on_other_core(
                        c,
                        faulter,
                        r.smt_sibling,
                        match my_core {
                            Some(s) => Some(s@),
                            None => None,
                        },
                        cores@,
                    ),
            ),
    {
        let list = read_list(siblings);
        let mut smt_sibling: Option<usize> = None;
        let mut i: usize = 0;
        while i < list.len() && smt_sibling.is_none()
            invariant
                i <= list@.len(),
                match smt_sibling {
                    Some(v) => i > 0 && list@[i - 1] == v && v != faulter && forall|j: int|
                        0 <= j < i - 1 ==> #[trigger] list@[j] == faulter,
                    None => forall|j: int| 0 <= j < i ==> #[trigger] list@[j] == faulter,
                },
            decreases list@.len() - i,
        {
            if list[i] != faulter {
                smt_sibling = Some(list[i]);
            }
            i += 1;
        }
        let core = read_first(my_core);
        let ghost property = |c: usize|
            on_other_core(
                c,
                faulter,
                smt_sibling,
                match my_core {
                    Some(s) => Some(s@),
                    None => None,
                },
                cores@,
            );
        let mut other_core: Option<usize> = None;
        let mut c: usize = 0;
        while c < cores.len() && other_core.is_none()
            invariant
                c <= cores@.len(),
                core == first_listed(
                    match my_core {
                        Some(s) => Some(s@),
                        None => None,
                    },
                ),
                property == (|c: usize|
                    on_other_core(
                        c,
                        faulter,
                        smt_sibling,
                        match my_core {
                            Some(s) => Some(s@),
                            None => None,
                        },
                        cores@,
                    )),
                match other_core {
                    Some(v) => v < cores@.len() && property(v) && forall|j: usize|
                        j < v ==> !(#[trigger] property(j)),
                    None => forall|j: usize| j < c ==> !(#[trigger] property(j)),
                },
            decreases cores@.len() - c,
        {
            let theirs = match &cores[c] {
                Some(t) => read_first(Some(t.as_str())),
                None => read_first(None),
            };
            let is_sibling: bool = match smt_sibling {
                Some(s) => s == c,
                None => false,
            };
            if c != faulter && !is_sibling && known_to_differ(theirs, core) {
                other_core = Some(c);
                assert(property(c));
            }
            c += 1;
        }
        Topology { faulter, smt_sibling, other_core }
    }

    /// The CPU for a placement, if this machine offers it.
    pub fn cpu_for(&self, p: Placement) -> (r: Option<usize>)
        ensures
            r == match p {
                Placement::SameCpu => Some(self.faulter),
                Placement::SmtSibling => self.smt_sibling,
                Placement::OtherCore => self.other_core,
            },
    {
        match p {
            Placement::SameCpu => Some(self.faulter),
            Placement::SmtSibling => self.smt_sibling,
            Placement::OtherCore => self.other_core,
        }
    }
}

/// Whether both cores are known, and are not the same.
fn known_to_differ(a: Option<usize>, b: Option<usize>) -> (r: bool)
    ensures
        r == (a is Some && b is Some && a != b),
{
    match (a, b) {
        (Some(x), Some(y)) => x != y,
        _ => false,
    }
}

/// How many CPUs to look at, from what the system says of those online: at least one.
pub fn online_cpus(reported: i64) -> (r: usize)
    requires
        reported <= usize::MAX,
    ensures
        r == if reported < 1 {
            1
        } else {
            reported as int
        },
{
    if reported < 1 {
        1
    } else {
        reported as usize
    }
}

/// The file that lists the siblings of a CPU.
pub fn siblings_path(cpu: usize) -> (r: String)
    ensures
        r@ == "/sys/devices/system/cpu/cpu"@ + decimal(cpu as nat)
            + "/topology/thread_siblings_list"@,
{
    let mut s = String::from_str("/sys/devices/system/cpu/cpu");
    push_decimal(&mut s, cpu as u64);
    s.append("/topology/thread_siblings_list");
    s
}

/// The file that holds the core number of a CPU.
pub fn core_id_path(cpu: usize) -> (r: String)
    ensures
        r@ == "/sys/devices/system/cpu/cpu"@ + decimal(cpu as nat) + "/topology/core_id"@,
{
    let mut s = String::from_str("/sys/devices/system/cpu/cpu");
    push_decimal(&mut s, cpu as u64);
    s.append("/topology/core_id");
    s
}

/// The placements never coincide: no two of them name the same CPU, and the other core is one whose
/// number is known and is not the faulter's.
pub proof fn law_placements_differ(
    t: Topology,
    siblings: Seq<usize>,
    my_core: Option<Seq<char>>,
    cores: Seq<Option<String>>,
)
    requires
        is_sibling(t.smt_sibling, siblings, t.faulter),
        is_first(
            t.other_core,
            cores.len(),
            |c: usize| on_other_core(c, t.faulter, t.smt_sibling, my_core, cores),
        ),
    ensures
        t.smt_sibling != Some(t.faulter),
        t.other_core != Some(t.faulter),
        t.other_core is Some ==> t.other_core != t.smt_sibling,
        t.other_core matches Some(c) ==> {
            &&& first_listed(my_core) is Some
            &&& first_listed(contents(cores[c as int])) is Some
            &&& first_listed(contents(cores[c as int])) != first_listed(my_core)
        },
{
}


/// White space is what Unicode has the property `White_Space` for: six characters of ASCII and
/// nineteen beyond it.
pub proof fn law_white_space(c: char)
    ensures
        is_space(c) <==> {
            let u = c as u32;
            ||| 0x9 <= u <= 0xd || u == 0x20 || u == 0x85 || u == 0xa0 || u == 0x1680
            ||| 0x2000 <= u <= 0x200a || u == 0x2028 || u == 0x2029 || u == 0x202f
            ||| u == 0x205f || u == 0x3000
        },
{
}

/// Nothing but white space.
pub open spec fn blank(s: Seq<char>) -> bool {
    forall|i: int| 0 <= i < s.len() ==> is_space(#[trigger] s[i])
}

/// What is cut off at the front is white space, and what is left does not begin with any.
proof fn lemma_trim_start(s: Seq<char>) -> (i: int)
    ensures
        0 <= i <= s.len(),
        blank(s.take(i)),
        trim_start(s) == s.skip(i),
        i < s.len() ==> !is_space(s[i]),
    decreases s.len(),
{
    if s.len() > 0 && is_space(s[0]) {
        let j = lemma_trim_start(s.drop_first());
        assert(s.drop_first().skip(j) =~= s.skip(j + 1));
        assert forall|k: int| 0 <= k < j + 1 implies is_space(#[trigger] s.take(j + 1)[k]) by {
            if k > 0 {
                assert(s.drop_first().take(j)[k - 1] == s[k]);
            }
        }
        j + 1
    } else {
        assert(s.skip(0) =~= s);
        0
    }
}

/// What is cut off at the end is white space, and what is left does not end with any.
proof fn lemma_trim_end(s: Seq<char>) -> (j: int)
    ensures
        0 <= j <= s.len(),
        blank(s.skip(j)),
        trim_end(s) == s.take(j),
        j > 0 ==> !is_space(s[j - 1]),
    decreases s.len(),
{
    if s.len() > 0 && is_space(s.last()) {
        let some = s.drop_last();
        let j = lemma_trim_end(some);
        assert(some.take(j) =~= s.take(j));
        assert forall|k: int| 0 <= k < s.len() - j implies is_space(#[trigger] s.skip(j)[k]) by {
            if k < some.len() - j {
                assert(some.skip(j)[k] == s[k + j]);
            }
        }
        j
    } else {
        assert(s.take(s.len() as int) =~= s);
        s.len() as int
    }
}

/// Trimming cuts white space off both ends, all there is, and nothing else.
pub proof fn law_trimming(s: Seq<char>)
    ensures
        exists|i: int, j: int|
            0 <= i <= j <= s.len() && trimmed(s) == #[trigger] s.subrange(i, j) && blank(s.take(i))
                && blank(s.skip(j)),
        trimmed(s).len() > 0 ==> !is_space(trimmed(s)[0]) && !is_space(trimmed(s).last()),
{
    let i = lemma_trim_start(s);
    let rest = s.skip(i);
    let n = lemma_trim_end(rest);
    let j = i + n;
    assert(rest.take(n) =~= s.subrange(i, j));
    assert(rest.skip(n) =~= s.skip(j));
    if n > 0 {
        assert(trimmed(s)[0] == s[i]);
        assert(trimmed(s).last() == rest[n - 1]);
    }
}

/// Trimming is decided: a stretch between white space, that neither begins nor ends with any, is
/// what it leaves.
pub proof fn law_trimming_takes_off_what_is_around(a: Seq<char>, s: Seq<char>, b: Seq<char>)
    requires
        blank(a),
        blank(b),
        s.len() > 0 ==> !is_space(s[0]) && !is_space(s.last()),
    ensures
        trimmed(a + s + b) == s,
{
    let t = a + s + b;
    let i = lemma_trim_start(t);
    let rest = t.skip(i);
    let n = lemma_trim_end(rest);
    if s.len() == 0 {
        if i < t.len() {
            assert(t[i] == if i < a.len() {
                a[i]
            } else {
                b[i - a.len()]
            });
        }
        assert(rest =~= Seq::<char>::empty());
    } else {
        assert(i == a.len()) by {
            if i < a.len() {
                assert(t[i] == a[i]);
            }
            if i > a.len() {
                assert(t.take(i)[a.len() as int] == s[0]);
            }
        }
        assert(rest =~= s + b);
        assert(n == s.len()) by {
            if n > s.len() {
                assert(rest[n - 1] == b[n - 1 - s.len()]);
            }
            if n < s.len() {
                assert(rest.skip(n)[s.len() - 1 - n] == s.last());
            }
        }
    }
    assert(trimmed(t) =~= s);
}

/// The place of a character is its first, and the length where it does not occur.
pub proof fn law_place_is_the_first(s: Seq<char>, c: char)
    ensures
        place_of(s, c) <= s.len(),
        place_of(s, c) < s.len() ==> s[place_of(s, c) as int] == c,
        forall|i: int| 0 <= i < place_of(s, c) ==> #[trigger] s[i] != c,
    decreases s.len(),
{
    if s.len() > 0 && s[0] != c {
        let rest = s.drop_first();
        law_place_is_the_first(rest, c);
        assert forall|i: int| 0 <= i < place_of(s, c) implies #[trigger] s[i] != c by {
            if i > 0 {
                assert(rest[i - 1] == s[i]);
            }
        }
    }
}

/// A place with the character at it and none before it is the place.
proof fn lemma_place(s: Seq<char>, c: char, at: int)
    requires
        0 <= at <= s.len(),
        at < s.len() ==> s[at] == c,
        forall|i: int| 0 <= i < at ==> #[trigger] s[i] != c,
    ensures
        place_of(s, c) == at,
{
    law_place_is_the_first(s, c);
    let p = place_of(s, c) as int;
    if p < at {
        assert(s[p] != c);
    }
}

/// `n` zeros.
pub open spec fn zeros(n: nat) -> Seq<char> {
    Seq::new(n, |i: int| '0')
}

/// The numerals of a number: its digits, behind any number of zeros.
pub open spec fn is_numeral(s: Seq<char>, v: nat) -> bool {
    exists|z: nat| s == #[trigger] zeros(z) + decimal(v)
}

/// The digits of a number are digits, and write it.
proof fn lemma_decimal_value(n: nat)
    ensures
        all_digits(decimal(n)),
        value_of(decimal(n)) == n,
        decimal(n).len() > 0,
    decreases n,
{
    reveal_with_fuel(value_of, 2);
    let s = decimal(n);
    law_digits_write_the_number(n, 10);
    if n < 10 {
        assert(s.drop_last() =~= Seq::<char>::empty());
    } else {
        lemma_decimal_value(n / 10);
        assert(s.drop_last() =~= decimal(n / 10));
    }
    assert forall|i: int| 0 <= i < s.len() implies '0' <= #[trigger] s[i] <= '9' by {
        assert(digit_of(digits(n, 10)[i]) < 10);
    }
}

/// Zeros in front change nothing.
proof fn lemma_zeros_in_front(z: nat, s: Seq<char>)
    requires
        all_digits(s),
    ensures
        all_digits(zeros(z) + s),
        value_of(zeros(z) + s) == value_of(s),
    decreases s.len() + z,
{
    let t = zeros(z) + s;
    if s.len() > 0 {
        assert(t.drop_last() =~= zeros(z) + s.drop_last());
        assert(all_digits(s.drop_last())) by {
            assert forall|i: int| 0 <= i < s.len() - 1 implies '0' <= #[trigger] s.drop_last()[i]
                <= '9' by {
                assert(s.drop_last()[i] == s[i]);
            }
        }
        lemma_zeros_in_front(z, s.drop_last());
        assert(t.last() == s.last());
    } else if z > 0 {
        let less = zeros((z - 1) as nat);
        assert(t.drop_last() =~= less + s);
        lemma_zeros_in_front((z - 1) as nat, s);
    }
    assert forall|i: int| 0 <= i < t.len() implies '0' <= #[trigger] t[i] <= '9' by {
        if i >= z {
            assert(t[i] == s[i - z]);
        }
    }
}

/// Digits are a numeral of the number they write.
proof fn lemma_digits_are_a_numeral(s: Seq<char>)
    requires
        s.len() > 0,
        all_digits(s),
    ensures
        is_numeral(s, value_of(s)),
    decreases s.len(),
{
    reveal_with_fuel(value_of, 2);
    let some = s.drop_last();
    let d = digit_value(s.last());
    assert('0' <= s[s.len() - 1] <= '9');
    assert(seq![s.last()] =~= decimal(d));
    if some.len() == 0 {
        assert(s =~= zeros(0) + decimal(d));
    } else {
        assert forall|i: int| 0 <= i < some.len() implies '0' <= #[trigger] some[i] <= '9' by {
            assert(some[i] == s[i]);
        }
        lemma_digits_are_a_numeral(some);
        let v = value_of(some);
        let z = choose|z: nat| some == #[trigger] zeros(z) + decimal(v);
        assert(s =~= some.push(s.last()));
        if v == 0 {
            assert(decimal(0) =~= seq!['0']);
            assert(s =~= zeros(z + 1) + decimal(d));
        } else {
            assert(decimal(10 * v + d) =~= decimal(v).push(s.last()));
            assert(s =~= zeros(z) + decimal(10 * v + d));
        }
    }
}

/// A number is read from its numerals, with a plus sign in front or not, and from nothing else.
pub proof fn law_numbers_are_read_from_their_numerals(s: Seq<char>, v: usize)
    ensures
        number_in(s) == Some(v) <==> (is_numeral(s, v as nat) || (s.len() > 0 && s[0] == '+'
            && is_numeral(s.skip(1), v as nat))),
{
    let signed = s.len() > 0 && s[0] == '+';
    let body = if signed {
        s.drop_first()
    } else {
        s
    };
    assert(signed ==> s.skip(1) =~= body);
    if number_in(s) == Some(v) {
        lemma_digits_are_a_numeral(body);
    }
    if is_numeral(s, v as nat) {
        let z = choose|z: nat| s == #[trigger] zeros(z) + decimal(v as nat);
        lemma_decimal_value(v as nat);
        lemma_zeros_in_front(z, decimal(v as nat));
        assert('0' <= s[0] <= '9');
        assert(!signed);
    } else if signed && is_numeral(body, v as nat) {
        let z = choose|z: nat| body == #[trigger] zeros(z) + decimal(v as nat);
        lemma_decimal_value(v as nat);
        lemma_zeros_in_front(z, decimal(v as nat));
    }
}

/// Digits hold no white space, and no character that parts a list.
proof fn lemma_digits_are_plain(s: Seq<char>)
    requires
        all_digits(s),
    ensures
        trimmed(s) == s,
        place_of(s, ',') == s.len(),
        place_of(s, '-') == s.len(),
{
    lemma_place(s, ',', s.len() as int);
    lemma_place(s, '-', s.len() as int);
    assert(Seq::<char>::empty() + s + Seq::<char>::empty() =~= s);
    if s.len() > 0 {
        assert('0' <= s[0] <= '9' && '0' <= s[s.len() - 1] <= '9');
    }
    law_trimming_takes_off_what_is_around(Seq::empty(), s, Seq::empty());
}

/// Reading inverts writing: the list that is the digits of a number holds that number alone.
pub proof fn law_a_number_lists_itself(n: usize)
    ensures
        listed(Some(decimal(n as nat))) == seq![n],
        first_listed(Some(decimal(n as nat))) == Some(n),
{
    let s = decimal(n as nat);
    lemma_decimal_value(n as nat);
    lemma_digits_are_plain(s);
    assert('0' <= s[0] <= '9');
}

/// A range lists every number from its first to its last, and none where it runs backwards.
pub proof fn law_a_range_lists_its_numbers(a: usize, b: usize)
    ensures
        ({
            let l = listed(Some(decimal(a as nat) + seq!['-'] + decimal(b as nat)));
            &&& l.len() == if a <= b {
                b - a + 1
            } else {
                0
            }
            &&& forall|i: int| 0 <= i < l.len() ==> #[trigger] l[i] == a + i
        }),
{
    let x = decimal(a as nat);
    let y = decimal(b as nat);
    lemma_decimal_value(a as nat);
    lemma_decimal_value(b as nat);
    lemma_digits_are_plain(x);
    lemma_digits_are_plain(y);
    assert('0' <= x[0] <= '9' && '0' <= y[0] <= '9' && '0' <= y[y.len() - 1] <= '9');
    let s = x + seq!['-'] + y;
    assert forall|i: int| 0 <= i < s.len() implies #[trigger] s[i] != ',' by {
        if i < x.len() {
            assert(s[i] == x[i]);
        } else if i > x.len() {
            assert(s[i] == y[i - x.len() - 1]);
        }
    }
    lemma_place(s, ',', s.len() as int);
    assert forall|i: int| 0 <= i < x.len() implies #[trigger] s[i] != '-' by {
        assert(s[i] == x[i]);
    }
    lemma_place(s, '-', x.len() as int);
    assert(Seq::<char>::empty() + s + Seq::<char>::empty() =~= s);
    law_trimming_takes_off_what_is_around(Seq::empty(), s, Seq::empty());
    assert(s.take(x.len() as int) =~= x);
    assert(s.skip(x.len() as int + 1) =~= y);
}


/// Every text is what trimming leaves of it, between white space.
proof fn lemma_around(s: Seq<char>) -> (r: (Seq<char>, Seq<char>))
    ensures
        blank(r.0),
        blank(r.1),
        s == r.0 + trimmed(s) + r.1,
{
    law_trimming(s);
    let (i, j) = choose|i: int, j: int|
        0 <= i <= j <= s.len() && trimmed(s) == #[trigger] s.subrange(i, j) && blank(s.take(i))
            && blank(s.skip(j));
    assert(s =~= s.take(i) + s.subrange(i, j) + s.skip(j));
    (s.take(i), s.skip(j))
}

/// What trimming leaves neither begins nor ends with white space.
proof fn lemma_trimmed_ends(s: Seq<char>)
    ensures
        trimmed(s).len() > 0 ==> !is_space(trimmed(s)[0]) && !is_space(trimmed(s).last()),
{
    law_trimming(s);
}

/// White space and white space is white space.
proof fn lemma_blank_joined(a: Seq<char>, b: Seq<char>)
    requires
        blank(a),
        blank(b),
    ensures
        blank(a + b),
{
    assert forall|i: int| 0 <= i < (a + b).len() implies is_space(#[trigger] (a + b)[i]) by {
        assert((a + b)[i] == if i < a.len() {
            a[i]
        } else {
            b[i - a.len()]
        });
    }
}

/// White space around a text changes nothing of what trimming leaves.
proof fn lemma_trimmed_around(a: Seq<char>, s: Seq<char>, b: Seq<char>)
    requires
        blank(a),
        blank(b),
    ensures
        trimmed(a + s + b) == trimmed(s),
{
    let (c, d) = lemma_around(s);
    lemma_trimmed_ends(s);
    let front = a + c;
    let back = d + b;
    lemma_blank_joined(a, c);
    lemma_blank_joined(d, b);
    assert(a + s + b =~= front + trimmed(s) + back);
    law_trimming_takes_off_what_is_around(front, trimmed(s), back);
}

/// White space around an entry changes nothing of what it stands for.
proof fn lemma_entry_around(a: Seq<char>, s: Seq<char>, b: Seq<char>)
    requires
        blank(a),
        blank(b),
    ensures
        entry_cpus(a + s + b) == entry_cpus(s),
{
    let t = a + s + b;
    let at = place_of(s, '-') as int;
    law_place_is_the_first(s, '-');
    assert forall|i: int| 0 <= i < a.len() implies #[trigger] t[i] != '-' by {
        assert(t[i] == a[i]);
    }
    if at < s.len() {
        assert forall|i: int| 0 <= i < a.len() + at implies #[trigger] t[i] != '-' by {
            if i >= a.len() {
                assert(t[i] == s[i - a.len()]);
            }
        }
        lemma_place(t, '-', a.len() + at);
        let none = Seq::<char>::empty();
        assert(t.take(a.len() + at) =~= a + s.take(at) + none);
        assert(t.skip(a.len() + at + 1) =~= none + s.skip(at + 1) + b);
        lemma_trimmed_around(a, s.take(at), none);
        lemma_trimmed_around(none, s.skip(at + 1), b);
    } else {
        assert forall|i: int| 0 <= i < t.len() implies #[trigger] t[i] != '-' by {
            if i >= a.len() + s.len() {
                assert(t[i] == b[i - a.len() - s.len()]);
            } else if i >= a.len() {
                assert(t[i] == s[i - a.len()]);
            }
        }
        lemma_place(t, '-', t.len() as int);
        lemma_trimmed_around(a, s, b);
    }
}

/// White space around a list changes nothing of what it lists.
proof fn lemma_entries_around(a: Seq<char>, s: Seq<char>, b: Seq<char>)
    requires
        blank(a),
        blank(b),
    ensures
        entries_cpus(a + s + b) == entries_cpus(s),
    decreases s.len(),
{
    let t = a + s + b;
    let at = place_of(s, ',') as int;
    let none = Seq::<char>::empty();
    law_place_is_the_first(s, ',');
    assert forall|i: int| 0 <= i < a.len() implies #[trigger] t[i] != ',' by {
        assert(t[i] == a[i]);
    }
    if at < s.len() {
        assert forall|i: int| 0 <= i < a.len() + at implies #[trigger] t[i] != ',' by {
            if i >= a.len() {
                assert(t[i] == s[i - a.len()]);
            }
        }
        lemma_place(t, ',', a.len() + at);
        assert(t.take(a.len() + at) =~= a + s.take(at) + none);
        assert(t.skip(a.len() + at + 1) =~= none + s.skip(at + 1) + b);
        lemma_entry_around(a, s.take(at), none);
        lemma_entries_around(none, s.skip(at + 1), b);
    } else {
        assert forall|i: int| 0 <= i < t.len() implies #[trigger] t[i] != ',' by {
            if i >= a.len() + s.len() {
                assert(t[i] == b[i - a.len() - s.len()]);
            } else if i >= a.len() {
                assert(t[i] == s[i - a.len()]);
            }
        }
        lemma_place(t, ',', t.len() as int);
        lemma_entry_around(a, s, b);
    }
}

/// Entries before a comma and entries behind it are listed one behind the other.
proof fn lemma_entries_joined(s: Seq<char>, t: Seq<char>)
    ensures
        entries_cpus(s + seq![','] + t) == entries_cpus(s) + entries_cpus(t),
    decreases s.len(),
{
    let all = s + seq![','] + t;
    let at = place_of(s, ',') as int;
    law_place_is_the_first(s, ',');
    assert forall|i: int| 0 <= i < at implies #[trigger] all[i] != ',' by {
        assert(all[i] == s[i]);
    }
    lemma_place(all, ',', at);
    assert(all.take(at) =~= s.take(at));
    if at < s.len() {
        let rest = s.skip(at + 1);
        assert(all.skip(at + 1) =~= rest + seq![','] + t);
        lemma_entries_joined(rest, t);
        assert(entries_cpus(all) =~= entries_cpus(s) + entries_cpus(t));
    } else {
        assert(s.take(at) =~= s);
        assert(all.skip(at + 1) =~= t);
    }
}

/// Lists that a comma joins list their numbers one behind the other, and what cannot be read on one
/// side takes nothing from the other.
pub proof fn law_lists_are_joined(s: Seq<char>, t: Seq<char>)
    ensures
        listed(Some(s + seq![','] + t)) == listed(Some(s)) + listed(Some(t)),
{
    let all = s + seq![','] + t;
    let (a, b) = lemma_around(s);
    let (c, d) = lemma_around(t);
    let (e, f) = lemma_around(all);
    lemma_entries_around(e, trimmed(all), f);
    lemma_entries_around(a, trimmed(s), b);
    lemma_entries_around(c, trimmed(t), d);
    lemma_entries_joined(s, t);
}

/// White space around a list, such as the end of its line, changes nothing.
pub proof fn law_lists_are_trimmed(a: Seq<char>, s: Seq<char>, b: Seq<char>)
    requires
        blank(a),
        blank(b),
    ensures
        listed(Some(a + s + b)) == listed(Some(s)),
{
    lemma_trimmed_around(a, s, b);
}

/// A single entry lists the number that is read from it, white space around it aside, and nothing if
/// none is. One with a hyphen lists the numbers from the one before its first hyphen to the one
/// behind it, and nothing if either is not read.
pub proof fn law_an_entry_is_a_number_or_a_range(s: Seq<char>, t: Seq<char>)
    requires
        !s.contains(','),
        !s.contains('-'),
        !t.contains(','),
    ensures
        listed(Some(s)) == match number_in(trimmed(s)) {
            Some(v) => seq![v],
            None => Seq::<usize>::empty(),
        },
        ({
            let l = listed(Some(s + seq!['-'] + t));
            match (number_in(trimmed(s)), number_in(trimmed(t))) {
                (Some(a), Some(b)) => {
                    &&& l.len() == if a <= b {
                        b - a + 1
                    } else {
                        0
                    }
                    &&& forall|i: int| 0 <= i < l.len() ==> #[trigger] l[i] == a + i
                },
                _ => l.len() == 0,
            }
        }),
{
    let all = s + seq!['-'] + t;
    let (a, b) = lemma_around(s);
    let (e, f) = lemma_around(all);
    lemma_entries_around(a, trimmed(s), b);
    lemma_entries_around(e, trimmed(all), f);
    assert forall|i: int| 0 <= i < s.len() implies #[trigger] s[i] != ',' && s[i] != '-' by {
        assert(s.contains(s[i]));
    }
    lemma_place(s, ',', s.len() as int);
    lemma_place(s, '-', s.len() as int);
    assert forall|i: int| 0 <= i < all.len() implies #[trigger] all[i] != ',' && (i < s.len()
        ==> all[i] != '-') by {
        if i < s.len() {
            assert(all[i] == s[i]);
        } else if i > s.len() {
            assert(all[i] == t[i - s.len() - 1]);
            assert(t.contains(t[i - s.len() - 1]));
        }
    }
    lemma_place(all, ',', all.len() as int);
    lemma_place(all, '-', s.len() as int);
    assert(all.take(s.len() as int) =~= s);
    assert(all.skip(s.len() as int + 1) =~= t);
}

/// The first CPU of a list is the one that stands first, and a file that lists none, or cannot be
/// read, has no first.
pub proof fn law_first_of_a_list(text: Option<Seq<char>>)
    ensures
        match first_listed(text) {
            Some(v) => listed(text).len() > 0 && listed(text)[0] == v,
            None => listed(text).len() == 0,
        },
        text is None ==> first_listed(text) is None,
{
}

/// The sibling is the first CPU on the list that is not the faulter, wherever it stands, and there is
/// none exactly where the list names no other CPU.
pub proof fn law_sibling_is_the_first_other(c: Option<usize>, list: Seq<usize>, faulter: usize, i: int)
    requires
        is_sibling(c, list, faulter),
        0 <= i < list.len(),
        list[i] != faulter,
        forall|j: int| 0 <= j < i ==> #[trigger] list[j] == faulter,
    ensures
        c == Some(list[i]),
{
    match c {
        Some(v) => {
            let k = choose|k: int|
                0 <= k < list.len() && #[trigger] list[k] == v && v != faulter && forall|j: int|
                    0 <= j < k ==> #[trigger] list[j] == faulter;
            if k < i {
                assert(list[k] == faulter);
            }
            if i < k {
                assert(list[i] == faulter);
            }
        },
        None => {
            assert(list[i] == faulter);
        },
    }
}

/// A list that names no CPU but the faulter gives it no sibling.
pub proof fn law_no_other_no_sibling(c: Option<usize>, list: Seq<usize>, faulter: usize)
    requires
        is_sibling(c, list, faulter),
        forall|i: int| 0 <= i < list.len() ==> #[trigger] list[i] == faulter,
    ensures
        c is None,
{
}

/// The other core is the first there is. If any CPU but the faulter and its sibling is known to be on
/// another core than the faulter's, one is picked, and none that comes behind it.
pub proof fn law_other_core_is_the_first(
    t: Topology,
    my_core: Option<Seq<char>>,
    cores: Seq<Option<String>>,
    c: usize,
)
    requires
        is_first(
            t.other_core,
            cores.len(),
            |c: usize| on_other_core(c, t.faulter, t.smt_sibling, my_core, cores),
        ),
        c < cores.len(),
        c != t.faulter,
        t.smt_sibling != Some(c),
        first_listed(my_core) is Some,
        first_listed(contents(cores[c as int])) is Some,
        first_listed(contents(cores[c as int])) != first_listed(my_core),
    ensures
        t.other_core matches Some(k) && k <= c,
        t.other_core matches Some(k) && k < cores.len(),
{
    let property = |c: usize| on_other_core(c, t.faulter, t.smt_sibling, my_core, cores);
    assert(property(c));
}

/// What the placements are called.
pub proof fn law_placement_names()
    ensures
        Placement::SameCpu.words() == "same logical CPU"@,
        Placement::SmtSibling.words() == "SMT sibling"@,
        Placement::OtherCore.words() == "different physical core"@,
{
}


/// The text of a file is its own, and one that could not be read has none and lists none.
pub proof fn law_unread_files_list_nothing(s: String)
    ensures
        contents(Some(s)) == Some(s@),
        contents(None) is None,
        listed(None).len() == 0,
{
}


/// A number is read however many zeros stand in front of it, behind a plus sign or not.
pub proof fn law_zeros_in_front_are_read(z: nat, v: usize)
    ensures
        number_in(Seq::new(z, |i: int| '0') + decimal(v as nat)) == Some(v),
        number_in(seq!['+'] + (Seq::new(z, |i: int| '0') + decimal(v as nat))) == Some(v),
{
    let s = zeros(z) + decimal(v as nat);
    let t = seq!['+'] + s;
    assert(Seq::new(z, |i: int| '0') =~= zeros(z));
    assert(is_numeral(s, v as nat));
    assert(t.skip(1) =~= s);
    law_numbers_are_read_from_their_numerals(s, v);
    law_numbers_are_read_from_their_numerals(t, v);
}

/// A text that is read as a number is digits, at least one, behind a plus sign or not.
pub proof fn law_only_digits_are_read(s: Seq<char>)
    requires
        number_in(s) is Some,
    ensures
        ({
            let from = if s.len() > 0 && s[0] == '+' {
                1int
            } else {
                0
            };
            s.len() > from && forall|i: int| from <= i < s.len() ==> '0' <= #[trigger] s[i] <= '9'
        }),
{
    let from = if s.len() > 0 && s[0] == '+' {
        1int
    } else {
        0
    };
    let body = if from == 1 {
        s.drop_first()
    } else {
        s
    };
    assert forall|i: int| from <= i < s.len() implies '0' <= #[trigger] s[i] <= '9' by {
        assert(body[i - from] == s[i]);
    }
}

} // verus!
