//! Kernel command-line parameters.

use vstd::prelude::*;
use vstd::string::StringSliceAdditionalSpecFns;

verus! {

/// Options that the kernel command line can set.
#[derive(Clone, Copy, Debug, PartialEq, Eq, Structural)]
pub struct Parameters {
    pub smp: bool,
    pub symbolinfo: bool,
    pub low_memory: bool,
}

/// Whether the bytes `i .. j` of `line` form one token: no space inside, and
/// a space or an end of the line on either side.
pub open spec fn is_token(line: Seq<u8>, i: int, j: int) -> bool {
    &&& 0 <= i <= j <= line.len()
    &&& i == 0 || line[i - 1] == 32u8
    &&& j == line.len() || line[j] == 32u8
    &&& forall|q: int| i <= q < j ==> line[q] != 32u8
}

/// Whether `word` is one of the space-separated tokens of `line`.
pub open spec fn has_token(line: Seq<u8>, word: Seq<u8>) -> bool {
    exists|i: int, j: int| is_token(line, i, j) && #[trigger] line.subrange(i, j) == word
}

/// The parameters that a command line sets, from the defaults: `--nosmp`
/// turns multiprocessing off, `--symbolinfo` and `--lomem` turn their option
/// on. Any other token is ignored; a line that is not ASCII sets nothing.
pub open spec fn parsed(line: &str) -> Parameters {
    if !vstd::string::is_ascii(line) {
        Parameters { smp: true, symbolinfo: false, low_memory: false }
    } else {
        Parameters {
            smp: !has_token(line.spec_bytes(), "--nosmp".spec_bytes()),
            symbolinfo: has_token(line.spec_bytes(), "--symbolinfo".spec_bytes()),
            low_memory: has_token(line.spec_bytes(), "--lomem".spec_bytes()),
        }
    }
}

/// Whether the bytes `start .. end` of `line` are `word`.
fn token_is(line: &[u8], start: usize, end: usize, word: &[u8]) -> (r: bool)
    requires
        start <= end <= line@.len(),
    ensures
        r == (line@.subrange(start as int, end as int) == word@),
{
    if end - start != word.len() {
        return false;
    }
    let mut k: usize = 0;
    while k < word.len()
        invariant
            end - start == word@.len(),
            start <= end <= line@.len(),
            k <= word@.len(),
            forall|q: int| 0 <= q < k ==> line@[start + q] == word@[q],
        decreases word@.len() - k,
    {
        if line[start + k] != word[k] {
            assert(line@.subrange(start as int, end as int)[k as int] != word@[k as int]);
            return false;
        }
        k = k + 1;
    }
    assert(line@.subrange(start as int, end as int) =~= word@);
    true
}

impl Parameters {
    /// The parameters when the command line says nothing.
    pub fn default() -> (r: Parameters)
        ensures
            r == (Parameters { smp: true, symbolinfo: false, low_memory: false }),
    {
        Parameters { smp: true, symbolinfo: false, low_memory: false }
    }

    /// Applies the token `start .. end` of `line`.
    fn take_token(&mut self, line: &[u8], start: usize, end: usize, nosmp: &[u8], symbolinfo: &[u8], lomem: &[u8])
        requires
            is_token(line@, start as int, end as int),
            old(self).smp == !has_token_before(line@, nosmp@, start as int),
            old(self).symbolinfo == has_token_before(line@, symbolinfo@, start as int),
            old(self).low_memory == has_token_before(line@, lomem@, start as int),
        ensures
            final(self).smp == !has_token_before(line@, nosmp@, end + 1),
            final(self).symbolinfo == has_token_before(line@, symbolinfo@, end + 1),
            final(self).low_memory == has_token_before(line@, lomem@, end + 1),
    {
        if token_is(line, start, end, nosmp) {
            self.smp = false;
        }
        if token_is(line, start, end, symbolinfo) {
            self.symbolinfo = true;
        }
        if token_is(line, start, end, lomem) {
            self.low_memory = true;
        }
        proof {
            lemma_token_step(line@, nosmp@, start as int, end as int);
            lemma_token_step(line@, symbolinfo@, start as int, end as int);
            lemma_token_step(line@, lomem@, start as int, end as int);
        }
    }

    /// Reads the parameters from a command line of space-separated tokens.
    pub fn parse(cmdline: &str) -> (r: Parameters)
        ensures
            r == parsed(cmdline),
    {
        let mut me = Parameters::default();
        if !cmdline.is_ascii() {
            return me;
        }
        let line = cmdline.as_bytes();
        let nosmp = "--nosmp".as_bytes();
        let symbolinfo = "--symbolinfo".as_bytes();
        let lomem = "--lomem".as_bytes();
        let ghost l = line@;
        let len = line.len();
        let mut start: usize = 0;
        let mut i: usize = 0;
        while i < len
            invariant
                l == line@,
                l == cmdline.spec_bytes(),
                len == l.len(),
                nosmp@ == "--nosmp".spec_bytes(),
                symbolinfo@ == "--symbolinfo".spec_bytes(),
                lomem@ == "--lomem".spec_bytes(),
                start <= i <= len,
                start == 0 || l[start - 1] == 32u8,
                forall|q: int| start <= q < i ==> l[q] != 32u8,
                me.smp == !has_token_before(l, nosmp@, start as int),
                me.symbolinfo == has_token_before(l, symbolinfo@, start as int),
                me.low_memory == has_token_before(l, lomem@, start as int),
            decreases len - i,
        {
            if line[i] == 32u8 {
                me.take_token(line, start, i, nosmp, symbolinfo, lomem);
                start = i + 1;
            }
            i = i + 1;
        }
        me.take_token(line, start, len, nosmp, symbolinfo, lomem);
        proof {
            lemma_token_all(l, nosmp@, len + 1);
            lemma_token_all(l, symbolinfo@, len + 1);
            lemma_token_all(l, lomem@, len + 1);
        }
        me
    }
}

/// Whether `word` is a token of `line` that starts before `limit`.
pub open spec fn has_token_before(line: Seq<u8>, word: Seq<u8>, limit: int) -> bool {
    exists|i: int, j: int| i < limit && is_token(line, i, j) && #[trigger] line.subrange(i, j) == word
}

/// Walking past the token `start .. end` adds it, and only it, to the
/// tokens seen.
proof fn lemma_token_step(line: Seq<u8>, word: Seq<u8>, start: int, end: int)
    requires
        is_token(line, start, end),
    ensures
        has_token_before(line, word, end + 1) == (has_token_before(line, word, start)
            || line.subrange(start, end) == word),
{
    if has_token_before(line, word, end + 1) && !has_token_before(line, word, start) {
        let (i, j) = choose|i: int, j: int| i < end + 1 && is_token(line, i, j) && #[trigger] line.subrange(i, j) == word;
        assert(i >= start);
        if i > start {
            assert(line[i - 1] != 32u8);
        }
        if j < end {
            assert(line[j] != 32u8);
        }
        if j > end {
            assert(line[end] != 32u8);
        }
    }
    if line.subrange(start, end) == word {
        assert(is_token(line, start, end));
    }
}

/// Once every token is walked, the tokens seen are all the line holds.
proof fn lemma_token_all(line: Seq<u8>, word: Seq<u8>, limit: int)
    requires
        limit >= line.len() + 1,
    ensures
        has_token_before(line, word, limit) == has_token(line, word),
{
    if has_token(line, word) {
        let (i, j) = choose|i: int, j: int| is_token(line, i, j) && #[trigger] line.subrange(i, j) == word;
        assert(i < limit);
    }
}

/// The parameters from the kernel's command line, or the defaults when the
/// kernel has none.
pub fn get_parameters(cmdline: Option<&str>) -> (r: Parameters)
    ensures
        r == match cmdline {
            Some(line) => parsed(line),
            None => Parameters { smp: true, symbolinfo: false, low_memory: false },
        },
{
    match cmdline {
        Some(line) => Parameters::parse(line),
        None => Parameters::default(),
    }
}

} // verus!
