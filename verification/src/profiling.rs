//! CPU-profiling state: which callframe definitions were emitted into the
//! current trace file, so that each address is defined once per file and
//! again after a rotation.

use std::collections::{HashMap, HashSet};
use vstd::prelude::*;
use vstd::string::StringExecFns;

verus! {

broadcast use vstd::std_specs::hash::group_hash_axioms;

/// Configuration of per-worker scheduler event capture.
#[derive(Debug, Clone, Copy, PartialEq, Eq, Structural)]
pub struct SchedEventConfig {
    /// Whether to include kernel stack frames.
    pub include_kernel: bool,
}

impl Default for SchedEventConfig {
    fn default() -> (r: Self)
        ensures
            !r.include_kernel,
    {
        SchedEventConfig { include_kernel: false }
    }
}

/// What a symbol lookup found for an address: the function's name and its
/// source file and line, when known.
#[derive(Debug, Clone)]
pub struct SymbolLookup {
    pub name: Option<String>,
    pub file: Option<String>,
    pub line: Option<u32>,
}

/// The definition of a callframe address: its symbol and source location.
#[derive(Debug, Clone)]
pub struct CallframeDefData {
    pub address: u64,
    pub symbol: String,
    pub location: Option<String>,
}

/// A lowercase hexadecimal digit.
pub open spec fn hex_digit(d: nat) -> char {
    if d < 10 {
        (48 + d) as char
    } else {
        (87 + d) as char
    }
}

/// The lowercase hexadecimal digits of `a`, without leading zeros.
pub open spec fn hex_digits(a: nat) -> Seq<char>
    decreases a,
{
    if a < 16 {
        seq![hex_digit(a)]
    } else {
        hex_digits(a / 16).push(hex_digit(a % 16))
    }
}

/// The decimal digits of `n`, without leading zeros.
pub open spec fn decimal_digits(n: nat) -> Seq<char>
    decreases n,
{
    if n < 10 {
        seq![(48 + n) as char]
    } else {
        decimal_digits(n / 10).push((48 + n % 10) as char)
    }
}

/// The lowercase hexadecimal digit `d` as a string.
fn digit_str(d: u64) -> (r: &'static str)
    requires
        d < 16,
    ensures
        r@ == seq![hex_digit(d as nat)],
{
    if d == 0 {
        proof {
            reveal_strlit("0");
        }
        "0"
    } else if d == 1 {
        proof {
            reveal_strlit("1");
        }
        "1"
    } else if d == 2 {
        proof {
            reveal_strlit("2");
        }
        "2"
    } else if d == 3 {
        proof {
            reveal_strlit("3");
        }
        "3"
    } else if d == 4 {
        proof {
            reveal_strlit("4");
        }
        "4"
    } else if d == 5 {
        proof {
            reveal_strlit("5");
        }
        "5"
    } else if d == 6 {
        proof {
            reveal_strlit("6");
        }
        "6"
    } else if d == 7 {
        proof {
            reveal_strlit("7");
        }
        "7"
    } else if d == 8 {
        proof {
            reveal_strlit("8");
        }
        "8"
    } else if d == 9 {
        proof {
            reveal_strlit("9");
        }
        "9"
    } else if d == 10 {
        proof {
            reveal_strlit("a");
        }
        "a"
    } else if d == 11 {
        proof {
            reveal_strlit("b");
        }
        "b"
    } else if d == 12 {
        proof {
            reveal_strlit("c");
        }
        "c"
    } else if d == 13 {
        proof {
            reveal_strlit("d");
        }
        "d"
    } else if d == 14 {
        proof {
            reveal_strlit("e");
        }
        "e"
    } else {
        proof {
            reveal_strlit("f");
        }
        "f"
    }
}

/// The lowercase hexadecimal digits of `a`.
fn hex_string(a: u64) -> (r: String)
    ensures
        r@ == hex_digits(a as nat),
    decreases a,
{
    if a < 16 {
        digit_str(a).to_owned()
    } else {
        let mut r = hex_string(a / 16);
        r.append(digit_str(a % 16));
        r
    }
}

/// `addr` in `{:#x}` form: `0x` and the lowercase hexadecimal digits.
pub(crate) fn format_hex(addr: u64) -> (r: String)
    ensures
        r@ == "0x"@ + hex_digits(addr as nat),
{
    let mut r = "0x".to_owned();
    let digits = hex_string(addr);
    r.append(digits.as_str());
    r
}

/// The decimal digits of `n`.
fn decimal_string(n: u64) -> (r: String)
    ensures
        r@ == decimal_digits(n as nat),
    decreases n,
{
    if n < 10 {
        digit_str(n).to_owned()
    } else {
        let mut r = decimal_string(n / 10);
        r.append(digit_str(n % 10));
        r
    }
}

/// `n` in decimal.
pub(crate) fn format_decimal(n: u32) -> (r: String)
    ensures
        r@ == decimal_digits(n as nat),
{
    decimal_string(n as u64)
}

/// `file:line`: the file, a colon and the line in decimal.
fn format_file_line(file: &str, line: u32) -> (r: String)
    ensures
        r@ == file@ + ":"@ + decimal_digits(line as nat),
{
    let mut r = file.to_owned();
    r.append(":");
    let digits = format_decimal(line);
    r.append(digits.as_str());
    r
}

/// The symbol of a lookup: its name, else the address in hexadecimal.
pub open spec fn lookup_symbol(addr: u64, l: SymbolLookup) -> Seq<char> {
    match l.name {
        Some(n) => n@,
        None => "0x"@ + hex_digits(addr as nat),
    }
}

/// The location of a lookup: `file:line`, the file alone without a line,
/// nothing without a file.
pub open spec fn lookup_location(l: SymbolLookup) -> Option<Seq<char>> {
    match l.file {
        Some(f) => Some(
            match l.line {
                Some(line) => f@ + ":"@ + decimal_digits(line as nat),
                None => f@,
            },
        ),
        None => None,
    }
}

pub open spec fn opt_str(o: Option<String>) -> Option<Seq<char>> {
    match o {
        Some(s) => Some(s@),
        None => None,
    }
}

/// The addresses of `chain` that are not in `emitted`, each once, in order
/// of first appearance.
pub open spec fn fresh_addrs(chain: Seq<u64>, emitted: Set<u64>) -> Seq<u64>
    decreases chain.len(),
{
    if chain.len() == 0 {
        Seq::empty()
    } else {
        let prev = fresh_addrs(chain.drop_last(), emitted);
        let a = chain.last();
        if emitted.contains(a) || prev.contains(a) {
            prev
        } else {
            prev.push(a)
        }
    }
}

/// The contents of the flush state.
pub struct CpuFlushV {
    pub inline_callframe_symbols: bool,
    pub interned: Map<u64, (Seq<char>, Option<Seq<char>>)>,
    pub emitted: Set<u64>,
}

/// Callframe symbols resolved so far, and the addresses defined in the
/// current file.
pub struct CpuFlushState {
    pub inline_callframe_symbols: bool,
    callframe_intern: HashMap<u64, (String, Option<String>)>,
    callframe_emitted_this_file: HashSet<u64>,
}

impl View for CpuFlushState {
    type V = CpuFlushV;

    closed spec fn view(&self) -> CpuFlushV {
        CpuFlushV {
            inline_callframe_symbols: self.inline_callframe_symbols,
            interned: self.callframe_intern@.map_values(
                |v: (String, Option<String>)| (v.0@, opt_str(v.1)),
            ),
            emitted: self.callframe_emitted_this_file@,
        }
    }
}

pub open spec fn def_view(d: CallframeDefData) -> (u64, Seq<char>, Option<Seq<char>>) {
    (d.address, d.symbol@, opt_str(d.location))
}

impl CpuFlushState {
    /// No symbols resolved, nothing emitted, inline symbols off.
    pub fn new() -> (r: CpuFlushState)
        ensures
            r@ == (CpuFlushV {
                inline_callframe_symbols: false,
                interned: Map::empty(),
                emitted: Set::empty(),
            }),
    {
        let r = CpuFlushState {
            inline_callframe_symbols: false,
            callframe_intern: HashMap::new(),
            callframe_emitted_this_file: HashSet::new(),
        };
        assert(r@.interned =~= Map::empty());
        r
    }

    /// A new file was started: nothing is defined in it yet.
    pub fn on_rotate(&mut self)
        ensures
            final(self)@ == (CpuFlushV { emitted: Set::empty(), ..old(self)@ }),
    {
        self.callframe_emitted_this_file.clear();
    }

    /// The callframe definitions to emit before a CPU sample with the given
    /// call chain: when inline symbols are on, one for each address of the
    /// chain not yet defined in this file (in order, each once), resolved
    /// through `resolve` the first time the address is met; those addresses
    /// then count as defined.
    pub fn resolve_cpu_event_symbols<F: Fn(u64) -> SymbolLookup>(
        &mut self,
        callchain: &[u64],
        resolve: F,
    ) -> (r: Vec<CallframeDefData>)
        requires
            forall|a: u64| call_requires(resolve, (a,)),
        ensures
            final(self)@.inline_callframe_symbols == old(self)@.inline_callframe_symbols,
            !old(self)@.inline_callframe_symbols ==> r@.len() == 0 && final(self)@ == old(self)@,
            old(self)@.inline_callframe_symbols ==> {
                &&& r@.map_values(|d: CallframeDefData| d.address) == fresh_addrs(
                    callchain@,
                    old(self)@.emitted,
                )
                &&& final(self)@.emitted == old(self)@.emitted.union(callchain@.to_set())
                &&& forall|a: u64|
                    #[trigger] old(self)@.interned.contains_key(a) ==> final(self)@.interned.contains_key(a)
                        && final(self)@.interned[a] == old(self)@.interned[a]
                &&& forall|i: int|
                    0 <= i < r@.len() ==> #[trigger] final(self)@.interned.contains_key(r@[i].address)
                        && final(self)@.interned[r@[i].address] == (r@[i].symbol@, opt_str(r@[i].location))
                &&& forall|a: u64|
                    #[trigger] final(self)@.interned.contains_key(a) && !old(self)@.interned.contains_key(a)
                        ==> exists|l: SymbolLookup|
                        call_ensures(resolve, (a,), l) && final(self)@.interned[a] == (
                            lookup_symbol(a, l),
                            lookup_location(l),
                        )
            },
    {
        let mut defs: Vec<CallframeDefData> = Vec::new();
        if !self.inline_callframe_symbols {
            return defs;
        }
        let ghost o = self@;
        let mut i: usize = 0;
        while i < callchain.len()
            invariant
                i <= callchain.len(),
                forall|a: u64| call_requires(resolve, (a,)),
                o == old(self)@,
                self@.inline_callframe_symbols == o.inline_callframe_symbols,
                defs@.map_values(|d: CallframeDefData| d.address) == fresh_addrs(
                    callchain@.take(i as int),
                    o.emitted,
                ),
                self@.emitted == o.emitted.union(callchain@.take(i as int).to_set()),
                forall|a: u64|
                    #[trigger] o.interned.contains_key(a) ==> self@.interned.contains_key(a)
                        && self@.interned[a] == o.interned[a],
                forall|k: int|
                    0 <= k < defs@.len() ==> #[trigger] self@.interned.contains_key(defs@[k].address)
                        && self@.interned[defs@[k].address] == (defs@[k].symbol@, opt_str(defs@[k].location)),
                forall|a: u64|
                    #[trigger] self@.interned.contains_key(a) && !o.interned.contains_key(a) ==> exists|
                        l: SymbolLookup,
                    |
                        call_ensures(resolve, (a,), l) && self@.interned[a] == (
                            lookup_symbol(a, l),
                            lookup_location(l),
                        ),
            decreases callchain.len() - i,
        {
            let addr = callchain[i];
            let ghost prev_defs = defs@.map_values(|d: CallframeDefData| d.address);
            proof {
                let t = callchain@.take(i + 1);
                assert(t.drop_last() =~= callchain@.take(i as int));
                assert(t.last() == addr);
                assert(t.to_set() =~= callchain@.take(i as int).to_set().insert(addr)) by {
                    assert forall|x: u64| t.to_set().contains(x) <==> callchain@.take(i as int).to_set().insert(addr).contains(x) by {
                        if t.contains(x) && x != addr {
                            let k = choose|k: int| 0 <= k < t.len() && t[k] == x;
                            assert(callchain@.take(i as int)[k] == x);
                        }
                        if callchain@.take(i as int).contains(x) {
                            let k = choose|k: int| 0 <= k < i && callchain@.take(i as int)[k] == x;
                            assert(t[k] == x);
                        }
                        if x == addr {
                            assert(t[i as int] == addr);
                        }
                    }
                }
                assert forall|x: u64| prev_defs.contains(x) ==> self@.emitted.contains(x) by {
                    if prev_defs.contains(x) {
                        lemma_fresh_in_chain(callchain@.take(i as int), o.emitted, x);
                    }
                }
            }
            if !self.callframe_emitted_this_file.contains(&addr) {
                if !self.callframe_intern.contains_key(&addr) {
                    let lookup = resolve(addr);
                    let symbol = match &lookup.name {
                        Some(n) => n.clone(),
                        None => format_hex(addr),
                    };
                    let location = match &lookup.file {
                        Some(f) => Some(
                            match lookup.line {
                                Some(line) => format_file_line(f.as_str(), line),
                                None => f.clone(),
                            },
                        ),
                        None => None,
                    };
                    proof {
                        assert(symbol@ == lookup_symbol(addr, lookup));
                        assert(opt_str(location) == lookup_location(lookup));
                    }
                    let ghost before = self@.interned;
                    let ghost val = (symbol@, opt_str(location));
                    self.callframe_intern.insert(addr, (symbol, location));
                    proof {
                        assert(self@.interned =~= before.insert(addr, val));
                        assert forall|a: u64|
                            #[trigger] self@.interned.contains_key(a) && !o.interned.contains_key(a) implies exists|
                                l: SymbolLookup,
                            |
                                call_ensures(resolve, (a,), l) && self@.interned[a] == (
                                    lookup_symbol(a, l),
                                    lookup_location(l),
                                ) by {
                            if a == addr {
                                assert(call_ensures(resolve, (a,), lookup));
                            } else {
                                assert(before.contains_key(a));
                            }
                        }
                        assert forall|k: int|
                            0 <= k < defs@.len() implies #[trigger] self@.interned.contains_key(defs@[k].address)
                                && self@.interned[defs@[k].address] == (defs@[k].symbol@, opt_str(defs@[k].location)) by {
                            assert(prev_defs[k] == defs@[k].address);
                            assert(prev_defs.contains(defs@[k].address));
                            assert(!o.emitted.union(callchain@.take(i as int).to_set()).contains(addr));
                            assert(defs@[k].address != addr);
                            assert(before.contains_key(defs@[k].address));
                        }
                    }
                }
                let ghost before2 = self@;
                let (symbol, location) = match self.callframe_intern.get(&addr) {
                    Some(v) => {
                        let loc = match &v.1 {
                            Some(l) => Some(l.clone()),
                            None => None,
                        };
                        (v.0.clone(), loc)
                    },
                    None => {
                        proof {
                            assert(false);
                        }
                        (String::new(), None)
                    },
                };
                proof {
                    assert(self@.interned.contains_key(addr));
                    assert(self@.interned[addr] == (symbol@, opt_str(location)));
                }
                let ghost defs_before = defs@;
                let ghost entry = (symbol@, opt_str(location));
                defs.push(CallframeDefData { address: addr, symbol, location });
                assert((defs@.last().symbol@, opt_str(defs@.last().location)) == entry);
                self.callframe_emitted_this_file.insert(addr);
                proof {
                    assert(self@.interned == before2.interned);
                    assert forall|k: int|
                        0 <= k < defs@.len() implies #[trigger] self@.interned.contains_key(defs@[k].address)
                            && self@.interned[defs@[k].address] == (defs@[k].symbol@, opt_str(defs@[k].location)) by {
                        if k < defs_before.len() {
                            assert(defs@[k] == defs_before[k]);
                        } else {
                            assert(defs@[k] == defs@.last());
                            assert(defs@[k].address == addr);
                        }
                    }
                    assert(defs@.map_values(|d: CallframeDefData| d.address) =~= prev_defs.push(addr));
                    assert(!prev_defs.contains(addr));
                }
            } else {
                proof {
                    assert(self@.emitted.contains(addr));
                    if !o.emitted.contains(addr) {
                        assert(callchain@.take(i as int).to_set().contains(addr));
                        lemma_fresh_has_seen(callchain@.take(i as int), o.emitted, addr);
                    }
                }
            }
            i += 1;
        }
        assert(callchain@.take(callchain.len() as int) =~= callchain@);
        defs
    }
}

/// A fresh address is in the chain and was not emitted.
proof fn lemma_fresh_in_chain(chain: Seq<u64>, emitted: Set<u64>, x: u64)
    requires
        fresh_addrs(chain, emitted).contains(x),
    ensures
        chain.to_set().contains(x),
        !emitted.contains(x),
    decreases chain.len(),
{
    if chain.len() > 0 {
        let prev = fresh_addrs(chain.drop_last(), emitted);
        if prev.contains(x) {
            lemma_fresh_in_chain(chain.drop_last(), emitted, x);
            let k = choose|k: int| 0 <= k < chain.drop_last().len() && chain.drop_last()[k] == x;
            assert(chain[k] == x);
        } else {
            assert(fresh_addrs(chain, emitted) == prev.push(chain.last()));
            let k = choose|k: int| 0 <= k < prev.len() + 1 && prev.push(chain.last())[k] == x;
            assert(chain[chain.len() - 1] == x);
        }
    }
}

/// An address of the chain that was not emitted is among the fresh ones.
proof fn lemma_fresh_has_seen(chain: Seq<u64>, emitted: Set<u64>, x: u64)
    requires
        chain.to_set().contains(x),
        !emitted.contains(x),
    ensures
        fresh_addrs(chain, emitted).contains(x),
    decreases chain.len(),
{
    if chain.len() > 0 {
        let prev = fresh_addrs(chain.drop_last(), emitted);
        if chain.last() == x {
            if !prev.contains(x) {
                assert(fresh_addrs(chain, emitted) == prev.push(x));
                assert(prev.push(x)[prev.len() as int] == x);
            }
        } else {
            let k = choose|k: int| 0 <= k < chain.len() && chain[k] == x;
            assert(chain.drop_last()[k] == x);
            lemma_fresh_has_seen(chain.drop_last(), emitted, x);
            let j = choose|j: int| 0 <= j < prev.len() && prev[j] == x;
            if !(emitted.contains(chain.last()) || prev.contains(chain.last())) {
                assert(prev.push(chain.last())[j] == x);
            }
        }
    }
}

/// A chain whose addresses are all defined has nothing fresh.
proof fn lemma_nothing_fresh(chain: Seq<u64>, emitted: Set<u64>)
    requires
        forall|i: int| 0 <= i < chain.len() ==> emitted.contains(#[trigger] chain[i]),
    ensures
        fresh_addrs(chain, emitted) == Seq::<u64>::empty(),
    decreases chain.len(),
{
    if chain.len() > 0 {
        assert forall|i: int| 0 <= i < chain.drop_last().len() implies emitted.contains(
            #[trigger] chain.drop_last()[i],
        ) by {
            assert(chain.drop_last()[i] == chain[i]);
        }
        lemma_nothing_fresh(chain.drop_last(), emitted);
        assert(emitted.contains(chain[chain.len() - 1]));
    }
}

/// Each address is defined once per file: right after the definitions for a
/// call chain are emitted, the same chain needs none.
pub proof fn lemma_defined_once_per_file(chain: Seq<u64>, emitted: Set<u64>)
    ensures
        fresh_addrs(chain, emitted.union(chain.to_set())) == Seq::<u64>::empty(),
{
    assert forall|i: int| 0 <= i < chain.len() implies emitted.union(chain.to_set()).contains(
        #[trigger] chain[i],
    ) by {
        assert(chain.contains(chain[i]));
    }
    lemma_nothing_fresh(chain, emitted.union(chain.to_set()));
}

} // verus!
