//! The CPU inventory: parses the CPU-info text blob, one record per
//! logical core. Cores are separated by blank lines; within a core block
//! each recognized `label: value` line sets one field. Unrecognized lines
//! are ignored and missing fields keep their defaults (`UnKnown`, or core
//! index 0). A `processor` value that is present but does not read as a
//! number fails that record: a wrong core index must not stand in as 0.
//! The failed record is dropped and the scan goes on, so one malformed
//! core cannot blank the whole inventory.

use vstd::prelude::*;

use crate::text::{
    after_last_colon, after_last_colon_chars, all_digits, chars_of, digits_val, parse_usize,
    split_lines, split_lines_chars, starts_with, starts_with_chars, string_from_chars, trim_chars,
    trimmed,
};

verus! {

/// One logical core.
#[derive(Clone, Debug)]
pub struct CpuMessage {
    pub name: String,
    pub processor: usize,
    pub mhz: String,
    pub cache_size: String,
    pub show_more: bool,
}

/// The plain values of a `CpuMessage`.
pub ghost struct CpuView {
    pub name: Seq<char>,
    pub processor: nat,
    pub mhz: Seq<char>,
    pub cache_size: Seq<char>,
    pub show_more: bool,
}

impl View for CpuMessage {
    type V = CpuView;

    open spec fn view(&self) -> CpuView {
        CpuView {
            name: self.name@,
            processor: self.processor as nat,
            mhz: self.mhz@,
            cache_size: self.cache_size@,
            show_more: self.show_more,
        }
    }
}

impl DeepView for CpuMessage {
    type V = CpuView;

    open spec fn deep_view(&self) -> CpuView {
        self.view()
    }
}

pub open spec fn model_label() -> Seq<char> {
    seq!['m', 'o', 'd', 'e', 'l', ' ', 'n', 'a', 'm', 'e']
}

pub open spec fn processor_label() -> Seq<char> {
    seq!['p', 'r', 'o', 'c', 'e', 's', 's', 'o', 'r']
}

pub open spec fn mhz_label() -> Seq<char> {
    seq!['c', 'p', 'u', ' ', 'M', 'H', 'z']
}

pub open spec fn cache_label() -> Seq<char> {
    seq!['c', 'a', 'c', 'h', 'e', ' ', 's', 'i', 'z', 'e']
}

pub open spec fn unknown_text() -> Seq<char> {
    seq!['U', 'n', 'K', 'n', 'o', 'w', 'n']
}

/// A core block while its lines are read. The raw text of the last
/// `processor` value is kept so that it can be judged once the block
/// ends; the other fields start out as `UnKnown`.
pub ghost struct CoreAcc {
    pub name: Seq<char>,
    pub processor: Option<Seq<char>>,
    pub mhz: Seq<char>,
    pub cache_size: Seq<char>,
}

/// A core block before any of its lines was read.
pub open spec fn empty_core() -> CoreAcc {
    CoreAcc {
        name: unknown_text(),
        processor: None,
        mhz: unknown_text(),
        cache_size: unknown_text(),
    }
}

/// `s` with every space removed.
pub open spec fn remove_spaces(s: Seq<char>) -> Seq<char>
    decreases s.len(),
{
    if s.len() == 0 {
        Seq::empty()
    } else if s.last() == ' ' {
        remove_spaces(s.drop_last())
    } else {
        remove_spaces(s.drop_last()).push(s.last())
    }
}

/// One line applied to a core block: each recognized label replaces its
/// field with the text after the line's last colon.
pub open spec fn cpu_apply(line: Seq<char>, r: CoreAcc) -> CoreAcc {
    let r1 = if starts_with(line, model_label()) {
        CoreAcc { name: after_last_colon(line), ..r }
    } else {
        r
    };
    let r2 = if starts_with(line, processor_label()) {
        CoreAcc { processor: Some(after_last_colon(line)), ..r1 }
    } else {
        r1
    };
    let r3 = if starts_with(line, mhz_label()) {
        CoreAcc { mhz: after_last_colon(line), ..r2 }
    } else {
        r2
    };
    if starts_with(line, cache_label()) {
        CoreAcc { cache_size: after_last_colon(line), ..r3 }
    } else {
        r3
    }
}

/// The record a finished core block yields. A block without a
/// `processor` line keeps core index 0; one whose `processor` value,
/// spaces removed, does not read as a number within `usize` yields
/// nothing: a malformed core index fails that record rather than
/// standing in as 0.
pub open spec fn finish_core(r: CoreAcc) -> Option<CpuView> {
    match r.processor {
        None => Some(
            CpuView {
                name: r.name,
                processor: 0,
                mhz: r.mhz,
                cache_size: r.cache_size,
                show_more: false,
            },
        ),
        Some(t) => {
            let d = remove_spaces(t);
            if all_digits(d) && digits_val(d) <= usize::MAX {
                Some(
                    CpuView {
                        name: r.name,
                        processor: digits_val(d),
                        mhz: r.mhz,
                        cache_size: r.cache_size,
                        show_more: false,
                    },
                )
            } else {
                None
            }
        },
    }
}

/// A closed block appended to the output; a failed block is dropped and
/// the scan goes on, so one malformed core cannot blank the inventory.
pub open spec fn flush_core(cur: Option<CoreAcc>, out: Seq<CpuView>) -> Seq<CpuView> {
    match cur {
        Some(c) => match finish_core(c) {
            Some(v) => out.push(v),
            None => out,
        },
        None => out,
    }
}

/// The fold that walks the lines: a blank line closes the current core
/// block, any other line opens one if none is open and applies itself.
pub open spec fn cpu_fold(ls: Seq<Seq<char>>, cur: Option<CoreAcc>, out: Seq<CpuView>) -> Seq<
    CpuView,
>
    decreases ls.len(),
{
    if ls.len() == 0 {
        flush_core(cur, out)
    } else {
        let rest = ls.subrange(1, ls.len() as int);
        if ls[0].len() == 0 {
            cpu_fold(rest, None, flush_core(cur, out))
        } else {
            let base = match cur {
                Some(c) => c,
                None => empty_core(),
            };
            cpu_fold(rest, Some(cpu_apply(ls[0], base)), out)
        }
    }
}

/// The core records of a CPU-info blob: the blob is trimmed, split into
/// lines, and folded into one record per blank-line-separated block.
pub open spec fn parse_cpu_text(s: Seq<char>) -> Seq<CpuView> {
    cpu_fold(split_lines(trimmed(s)), None, Seq::empty())
}

/// The text after the last colon of `line`, whitespace kept.
pub fn get_key(line: &str) -> (r: String)
    ensures
        r@ == after_last_colon(line@),
{
    let cs = chars_of(line);
    let tail = after_last_colon_chars(&cs);
    string_from_chars(&tail)
}

fn unknown_string() -> (r: String)
    ensures
        r@ == unknown_text(),
{
    let v = vec!['U', 'n', 'K', 'n', 'o', 'w', 'n'];
    proof {
        assert(v@ =~= unknown_text());
    }
    string_from_chars(&v)
}

fn remove_spaces_chars(v: &Vec<char>) -> (r: Vec<char>)
    ensures
        r@ == remove_spaces(v@),
{
    let n = v.len();
    let mut r: Vec<char> = Vec::new();
    let mut i: usize = 0;
    proof {
        assert(v@.subrange(0, 0) =~= Seq::<char>::empty());
    }
    while i < n
        invariant
            0 <= i <= n == v@.len(),
            r@ == remove_spaces(v@.subrange(0, i as int)),
        decreases n - i,
    {
        proof {
            assert(v@.subrange(0, i + 1).drop_last() =~= v@.subrange(0, i as int));
            assert(v@.subrange(0, i + 1).last() == v@[i as int]);
        }
        let c = v[i];
        if c != ' ' {
            r.push(c);
        }
        i = i + 1;
    }
    proof {
        assert(v@.subrange(0, n as int) =~= v@);
    }
    r
}

/// The executable mirror of `CoreAcc`.
struct CpuCore {
    name: String,
    processor: Option<Vec<char>>,
    mhz: String,
    cache_size: String,
}

impl CpuCore {
    spec fn acc(&self) -> CoreAcc {
        CoreAcc {
            name: self.name@,
            processor: match self.processor {
                Some(v) => Some(v@),
                None => None,
            },
            mhz: self.mhz@,
            cache_size: self.cache_size@,
        }
    }
}

fn empty_core_exec() -> (r: CpuCore)
    ensures
        r.acc() == empty_core(),
{
    CpuCore {
        name: unknown_string(),
        processor: None,
        mhz: unknown_string(),
        cache_size: unknown_string(),
    }
}

fn apply_line_exec(line: &Vec<char>, r: CpuCore) -> (out: CpuCore)
    ensures
        out.acc() == cpu_apply(line@, r.acc()),
{
    let mut out = r;
    let model_lab = vec!['m', 'o', 'd', 'e', 'l', ' ', 'n', 'a', 'm', 'e'];
    let proc_lab = vec!['p', 'r', 'o', 'c', 'e', 's', 's', 'o', 'r'];
    let mhz_lab = vec!['c', 'p', 'u', ' ', 'M', 'H', 'z'];
    let cache_lab = vec!['c', 'a', 'c', 'h', 'e', ' ', 's', 'i', 'z', 'e'];
    proof {
        assert(model_lab@ =~= model_label());
        assert(proc_lab@ =~= processor_label());
        assert(mhz_lab@ =~= mhz_label());
        assert(cache_lab@ =~= cache_label());
    }
    if starts_with_chars(line, &model_lab) {
        let tail = after_last_colon_chars(line);
        out.name = string_from_chars(&tail);
    }
    if starts_with_chars(line, &proc_lab) {
        out.processor = Some(after_last_colon_chars(line));
    }
    if starts_with_chars(line, &mhz_lab) {
        let tail = after_last_colon_chars(line);
        out.mhz = string_from_chars(&tail);
    }
    if starts_with_chars(line, &cache_lab) {
        let tail = after_last_colon_chars(line);
        out.cache_size = string_from_chars(&tail);
    }
    out
}

/// Judges a finished core block; a malformed core index fails it.
fn finish_core_exec(c: CpuCore) -> (r: Option<CpuMessage>)
    ensures
        r is Some <==> finish_core(c.acc()) is Some,
        r is Some ==> r->0@ == finish_core(c.acc())->0,
{
    let processor = match &c.processor {
        None => 0,
        Some(t) => {
            let digits = remove_spaces_chars(t);
            match parse_usize(&digits) {
                Some(x) => x,
                None => {
                    return None;
                },
            }
        },
    };
    Some(
        CpuMessage {
            name: c.name,
            processor,
            mhz: c.mhz,
            cache_size: c.cache_size,
            show_more: false,
        },
    )
}

spec fn ocv(o: Option<CpuCore>) -> Option<CoreAcc> {
    match o {
        Some(c) => Some(c.acc()),
        None => None,
    }
}

/// The core records written in a CPU-info blob. A block whose core
/// index is malformed is dropped; every other block yields one record.
#[verifier::loop_isolation(false)]
pub fn parse_cpuinfo(text: &str) -> (out: Vec<CpuMessage>)
    ensures
        out.deep_view() == parse_cpu_text(text@),
{
    let cs = chars_of(text);
    let t = trim_chars(&cs);
    let lines = split_lines_chars(&t);
    let ghost ls = split_lines(trimmed(text@));
    proof {
        assert(lines.deep_view() == ls);
    }
    let mut out: Vec<CpuMessage> = Vec::new();
    let mut cur: Option<CpuCore> = None;
    let n = lines.len();
    let mut i: usize = 0;
    proof {
        assert(ls.subrange(0, ls.len() as int) =~= ls);
        assert(out.deep_view() =~= Seq::<CpuView>::empty());
    }
    while i < n
        invariant
            0 <= i <= n == lines@.len(),
            cpu_fold(ls.subrange(i as int, n as int), ocv(cur), out.deep_view()) == parse_cpu_text(
                text@,
            ),
        decreases n - i,
    {
        let ghost seg = ls.subrange(i as int, n as int);
        proof {
            assert(seg.subrange(1, seg.len() as int) =~= ls.subrange(i + 1, n as int));
            assert(seg[0] == lines@[i as int]@);
        }
        let line = &lines[i];
        if line.len() == 0 {
            match cur {
                Some(c) => {
                    let ghost cv = c.acc();
                    match finish_core_exec(c) {
                        Some(msg) => {
                            let ghost ov = out.deep_view();
                            out.push(msg);
                            proof {
                                assert(out.deep_view() =~= ov.push(finish_core(cv)->0));
                            }
                        },
                        None => {},
                    }
                    cur = None;
                },
                None => {
                    cur = None;
                },
            }
        } else {
            let base = match cur {
                Some(c) => c,
                None => empty_core_exec(),
            };
            proof {
                assert(base.acc() == match ocv(cur) {
                    Some(c) => c,
                    None => empty_core(),
                });
            }
            let applied = apply_line_exec(line, base);
            cur = Some(applied);
        }
        i = i + 1;
    }
    proof {
        assert(ls.subrange(n as int, n as int) =~= Seq::<Seq<char>>::empty());
    }
    match cur {
        Some(c) => {
            let ghost cv = c.acc();
            match finish_core_exec(c) {
                Some(msg) => {
                    let ghost ov = out.deep_view();
                    out.push(msg);
                    proof {
                        assert(out.deep_view() =~= ov.push(finish_core(cv)->0));
                    }
                },
                None => {},
            }
        },
        None => {},
    }
    out
}

/// The CPU inventory: the current list of core records.
pub struct CpuMessageVec {
    inner: Vec<CpuMessage>,
}

impl View for CpuMessageVec {
    type V = Seq<CpuView>;

    closed spec fn view(&self) -> Seq<CpuView> {
        self.inner.deep_view()
    }
}

impl CpuMessageVec {
    /// The current core records.
    pub fn iter(&self) -> (r: &Vec<CpuMessage>)
        ensures
            r.deep_view() == self@,
    {
        &self.inner
    }

    /// Replaces the records with those parsed from a fresh read of the
    /// CPU-info blob; an unreadable blob empties the inventory.
    pub fn refresh(&mut self, text: Option<&str>)
        ensures
            match text {
                Some(t) => final(self)@ == parse_cpu_text(t@),
                None => final(self)@.len() == 0,
            },
    {
        match text {
            Some(t) => {
                self.inner = parse_cpuinfo(t);
            },
            None => {
                self.inner = Vec::new();
                proof {
                    assert(self.inner.deep_view() =~= Seq::<CpuView>::empty());
                }
            },
        }
    }

    pub fn new() -> (r: Self)
        ensures
            r@.len() == 0,
    {
        let r = CpuMessageVec { inner: Vec::new() };
        proof {
            assert(r.inner.deep_view() =~= Seq::<CpuView>::empty());
        }
        r
    }

    pub fn is_empty(&self) -> (r: bool)
        ensures
            r == (self@.len() == 0),
    {
        self.inner.is_empty()
    }
}

} // verus!
