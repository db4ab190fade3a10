//! Times and sizes recorded for each inode.

use vstd::prelude::*;
use crate::stored::{push_char, push_str};

verus! {

/// Relies on std::time::SystemTime::now, read as whole seconds since the
/// Unix epoch (zero for a clock set before it); nothing is known of the
/// value.
#[verifier::external_body]
fn now_secs() -> (r: u64) {
    std::time::SystemTime::now().duration_since(std::time::UNIX_EPOCH).unwrap_or_default().as_secs()
}

/// The text chrono gives for `secs` seconds after the epoch, in UTC, as
/// `%Y-%m-%d %H:%M:%S`.
pub uninterp spec fn utc_text(secs: u64) -> Seq<char>;

/// Relies on chrono::DateTime::<Utc>::from_timestamp and its `format`: the
/// text depends on the seconds alone; empty where chrono has no date for
/// them.
#[verifier::external_body]
fn format_utc(secs: u64) -> (r: String)
    ensures
        r@ == utc_text(secs),
{
    match chrono::DateTime::<chrono::Utc>::from_timestamp(secs as i64, 0) {
        Some(t) => t.format("%Y-%m-%d %H:%M:%S").to_string(),
        None => String::new(),
    }
}

/// The decimal digits of `n`.
pub open spec fn decimal(n: nat) -> Seq<char>
    decreases n,
{
    if n < 10 {
        seq![digit(n)]
    } else {
        decimal(n / 10).push(digit(n % 10))
    }
}

pub open spec fn digit(d: nat) -> char {
    if d == 0 {
        '0'
    } else if d == 1 {
        '1'
    } else if d == 2 {
        '2'
    } else if d == 3 {
        '3'
    } else if d == 4 {
        '4'
    } else if d == 5 {
        '5'
    } else if d == 6 {
        '6'
    } else if d == 7 {
        '7'
    } else if d == 8 {
        '8'
    } else {
        '9'
    }
}

fn digit_char(d: usize) -> (r: char)
    requires
        d < 10,
    ensures
        r == digit(d as nat),
{
    if d == 0 {
        '0'
    } else if d == 1 {
        '1'
    } else if d == 2 {
        '2'
    } else if d == 3 {
        '3'
    } else if d == 4 {
        '4'
    } else if d == 5 {
        '5'
    } else if d == 6 {
        '6'
    } else if d == 7 {
        '7'
    } else if d == 8 {
        '8'
    } else {
        '9'
    }
}

/// `n` written in decimal.
pub fn decimal_string(n: usize) -> (r: String)
    ensures
        r@ == decimal(n as nat),
    decreases n,
{
    if n < 10 {
        let mut s = String::new();
        push_char(&mut s, digit_char(n));
        assert(s@ =~= decimal(n as nat));
        s
    } else {
        let mut s = decimal_string(n / 10);
        push_char(&mut s, digit_char(n % 10));
        s
    }
}

/// Name of the `i`-th power of 1024 bytes.
pub open spec fn unit(i: nat) -> Seq<char> {
    if i == 0 {
        "B"@
    } else if i == 1 {
        "KB"@
    } else if i == 2 {
        "MB"@
    } else if i == 3 {
        "GB"@
    } else if i == 4 {
        "TB"@
    } else if i == 5 {
        "PB"@
    } else if i == 6 {
        "EB"@
    } else if i == 7 {
        "ZB"@
    } else {
        "YB"@
    }
}

fn unit_str(i: usize) -> (r: &'static str)
    ensures
        r@ == unit(i as nat),
{
    proof {
        reveal_strlit("B");
        reveal_strlit("KB");
        reveal_strlit("MB");
        reveal_strlit("GB");
        reveal_strlit("TB");
        reveal_strlit("PB");
        reveal_strlit("EB");
        reveal_strlit("ZB");
        reveal_strlit("YB");
    }
    if i == 0 {
        "B"
    } else if i == 1 {
        "KB"
    } else if i == 2 {
        "MB"
    } else if i == 3 {
        "GB"
    } else if i == 4 {
        "TB"
    } else if i == 5 {
        "PB"
    } else if i == 6 {
        "EB"
    } else if i == 7 {
        "ZB"
    } else {
        "YB"
    }
}

/// `b` bytes divided by 1024 (rounding down) while above 1024, with the
/// number of divisions made, counted from `i`.
pub open spec fn scaled(b: nat, i: nat) -> (nat, nat)
    decreases b,
{
    if b > 1024 {
        scaled(b / 1024, i + 1)
    } else {
        (b, i)
    }
}

/// How large an inode is: a directory's entries, a file's bytes, or
/// nothing recorded.
#[derive(Clone, Copy, Debug, PartialEq, Eq, Structural)]
pub enum Size {
    Entries(usize),
    Bytes(usize),
    Empty,
}

impl Size {
    /// The order of sizes: nothing recorded first, then entry counts, then
    /// byte counts, each family by its number.
    pub open spec fn spec_cmp(&self, other: &Size) -> Option<core::cmp::Ordering> {
        match (*self, *other) {
            (Size::Entries(a), Size::Entries(b)) => Some(order(a as int, b as int)),
            (Size::Bytes(a), Size::Bytes(b)) => Some(order(a as int, b as int)),
            (Size::Empty, Size::Empty) => Some(core::cmp::Ordering::Equal),
            (Size::Empty, _) => Some(core::cmp::Ordering::Less),
            (_, Size::Empty) => Some(core::cmp::Ordering::Greater),
            (Size::Entries(_), Size::Bytes(_)) => Some(core::cmp::Ordering::Less),
            (Size::Bytes(_), Size::Entries(_)) => Some(core::cmp::Ordering::Greater),
        }
    }

    pub fn default() -> (r: Size)
        ensures
            r == Size::Empty,
    {
        Size::Empty
    }

    pub open spec fn spec_human(&self) -> Seq<char> {
        match self {
            Size::Entries(n) => decimal(*n as nat) + " entries"@,
            Size::Bytes(n) => {
                let (v, i) = scaled(*n as nat, 0);
                decimal(v) + " "@ + unit(i)
            },
            Size::Empty => "Empty"@,
        }
    }

    /// The size for people: `N entries`, `N B`/`KB`/`MB`/... (1024 per
    /// step, rounded down, stepping while above 1024), or `Empty`.
    pub fn human(&self) -> (r: String)
        ensures
            r@ == self.spec_human(),
    {
        proof {
            reveal_strlit(" entries");
            reveal_strlit(" ");
            reveal_strlit("Empty");
        }
        match self {
            Size::Entries(n) => {
                let mut s = decimal_string(*n);
                push_str(&mut s, " entries");
                s
            },
            Size::Bytes(n) => {
                let mut bytes: usize = *n;
                let mut i: usize = 0;
                while bytes > 1024
                    invariant
                        scaled(bytes as nat, i as nat) == scaled(*n as nat, 0),
                        i <= 64,
                        bytes as int * pow1024(i as nat) <= *n as int,
                    decreases bytes,
                {
                    proof {
                        lemma_pow1024_grows(i as nat);
                        assert((bytes as int / 1024) * 1024 <= bytes as int);
                        assert(pow1024((i + 1) as nat) == pow1024(i as nat) * 1024);
                        assert((bytes as int / 1024) * pow1024((i + 1) as nat) <= bytes as int
                            * pow1024(i as nat)) by (nonlinear_arith)
                            requires
                                (bytes as int / 1024) * 1024 <= bytes as int,
                                pow1024((i + 1) as nat) == pow1024(i as nat) * 1024,
                                pow1024(i as nat) >= 1,
                        ;
                        if i == 64 {
                            lemma_pow1024_large();
                            assert(bytes as int * pow1024(64) >= 1025 * pow1024(64))
                                by (nonlinear_arith)
                                requires
                                    bytes > 1024,
                                    pow1024(64) >= 1,
                            ;
                        }
                    }
                    bytes = bytes / 1024;
                    i = i + 1;
                }
                let mut s = decimal_string(bytes);
                push_str(&mut s, " ");
                push_str(&mut s, unit_str(i));
                s
            },
            Size::Empty => "Empty".to_string(),
        }
    }
}

/// The order of two numbers.
pub open spec fn order(a: int, b: int) -> core::cmp::Ordering {
    if a < b {
        core::cmp::Ordering::Less
    } else if a == b {
        core::cmp::Ordering::Equal
    } else {
        core::cmp::Ordering::Greater
    }
}

fn order_of(a: usize, b: usize) -> (r: core::cmp::Ordering)
    ensures
        r == order(a as int, b as int),
{
    if a < b {
        core::cmp::Ordering::Less
    } else if a == b {
        core::cmp::Ordering::Equal
    } else {
        core::cmp::Ordering::Greater
    }
}

impl PartialOrd for Size {
    fn partial_cmp(&self, other: &Size) -> (r: Option<core::cmp::Ordering>) {
        match (self, other) {
            (Size::Entries(a), Size::Entries(b)) => Some(order_of(*a, *b)),
            (Size::Bytes(a), Size::Bytes(b)) => Some(order_of(*a, *b)),
            (Size::Empty, Size::Empty) => Some(core::cmp::Ordering::Equal),
            (Size::Empty, _) => Some(core::cmp::Ordering::Less),
            (_, Size::Empty) => Some(core::cmp::Ordering::Greater),
            (Size::Entries(_), Size::Bytes(_)) => Some(core::cmp::Ordering::Less),
            (Size::Bytes(_), Size::Entries(_)) => Some(core::cmp::Ordering::Greater),
        }
    }
}

impl vstd::std_specs::cmp::PartialOrdSpecImpl for Size {
    open spec fn obeys_partial_cmp_spec() -> bool {
        true
    }

    open spec fn partial_cmp_spec(&self, other: &Size) -> Option<core::cmp::Ordering> {
        self.spec_cmp(other)
    }
}

pub open spec fn pow1024(i: nat) -> int
    decreases i,
{
    if i == 0 {
        1
    } else {
        pow1024((i - 1) as nat) * 1024
    }
}

proof fn lemma_pow1024_grows(i: nat)
    ensures
        pow1024(i) >= 1,
    decreases i,
{
    if i > 0 {
        lemma_pow1024_grows((i - 1) as nat);
    }
}

proof fn lemma_pow1024_large()
    ensures
        pow1024(64) > usize::MAX,
{
    assert(pow1024(0) == 1);
    assert(pow1024(1) == 1024);
    assert(pow1024(2) == 1048576);
    assert(pow1024(3) == 1073741824);
    assert(pow1024(4) == 1099511627776);
    assert(pow1024(5) == 1125899906842624);
    assert(pow1024(6) == 1152921504606846976);
    assert(pow1024(7) == 1180591620717411303424);
    lemma_pow1024_mono(7, 64);
}

proof fn lemma_pow1024_mono(i: nat, j: nat)
    requires
        i <= j,
    ensures
        pow1024(i) <= pow1024(j),
    decreases j,
{
    if i < j {
        lemma_pow1024_mono(i, (j - 1) as nat);
        lemma_pow1024_grows((j - 1) as nat);
    }
}

/// When an inode was created and last modified, and how large it is.
#[derive(Clone, Copy, Debug, PartialEq, Eq, Structural)]
pub struct Metadata {
    pub created: u64,
    pub modified: u64,
    pub size: Size,
}

impl Metadata {
    /// Metadata stamped with the current time, size not recorded.
    /// Metadata created and modified at `now`, size not recorded.
    pub fn new_at(now: u64) -> (r: Metadata)
        ensures
            r == (Metadata { created: now, modified: now, size: Size::Empty }),
    {
        Metadata { created: now, modified: now, size: Size::Empty }
    }

    /// Metadata stamped with the current time, size not recorded.
    pub fn new() -> (r: Metadata)
        ensures
            r.created == r.modified,
            r.size == Size::Empty,
    {
        Metadata::new_at(now_secs())
    }

    /// Sets the modification time to `now`.
    pub fn touch_at(&mut self, now: u64)
        ensures
            *final(self) == (Metadata { modified: now, ..*old(self) }),
    {
        self.modified = now;
    }

    /// Stamps the modification time with the current time.
    pub fn touch(&mut self)
        ensures
            final(self).created == old(self).created,
            final(self).size == old(self).size,
    {
        self.touch_at(now_secs());
    }

    /// Records a new size and sets the modification time to `now`.
    pub fn modified_at(&mut self, size: Size, now: u64)
        ensures
            *final(self) == (Metadata { modified: now, size, ..*old(self) }),
    {
        self.touch_at(now);
        self.size = size;
    }

    /// Records a new size and stamps the modification time.
    pub fn modified(&mut self, size: Size)
        ensures
            final(self).created == old(self).created,
            final(self).size == size,
    {
        self.modified_at(size, now_secs());
    }

    /// Creation time as `YYYY-MM-DD HH:MM:SS` in UTC.
    pub fn human_created(&self) -> (r: String)
        ensures
            r@ == utc_text(self.created),
    {
        format_utc(self.created)
    }

    /// Modification time as `YYYY-MM-DD HH:MM:SS` in UTC.
    pub fn human_modified(&self) -> (r: String)
        ensures
            r@ == utc_text(self.modified),
    {
        format_utc(self.modified)
    }
}

} // verus!
