//! Parsing the text of an IPv4 routing-table listing into routes.

use vstd::prelude::*;
use vstd::string::StringSliceAdditionalSpecFns;

use crate::addr::{dotted_quad, read_ipv4, Ipv4};
use crate::error::Error;
use crate::text::{closed_words, is_space, is_space_byte, split_on, split_ranges, trailing_word};

verus! {

/// The flags column of a route, one field per flag character.
#[derive(Clone, Copy, Debug, PartialEq, Eq, Structural)]
pub struct Flags {
    /// U (route is up)
    pub up: bool,
    /// H (target is a host)
    pub host: bool,
    /// G (use gateway)
    pub gateway: bool,
    /// R (reinstate route for dynamic routing)
    pub reinstate: bool,
    /// D (dynamically installed by daemon or redirect)
    pub dynamically: bool,
    /// M (modified from routing daemon or redirect)
    pub modified: bool,
    /// A (installed by addrconf)
    pub addrconf: bool,
    /// C (cache entry)
    pub cache: bool,
    /// ! (reject route)
    pub reject: bool,
}

/// No flag set.
pub open spec fn no_flags() -> Flags {
    Flags {
        up: false,
        host: false,
        gateway: false,
        reinstate: false,
        dynamically: false,
        modified: false,
        addrconf: false,
        cache: false,
        reject: false,
    }
}

impl Default for Flags {
    fn default() -> (r: Flags)
        ensures
            r == no_flags(),
    {
        Flags {
            up: false,
            host: false,
            gateway: false,
            reinstate: false,
            dynamically: false,
            modified: false,
            addrconf: false,
            cache: false,
            reject: false,
        }
    }
}

/// The byte is one of the flag characters `UHGRDMAC!`.
pub open spec fn is_flag_char(b: u8) -> bool {
    b == 0x55 || b == 0x48 || b == 0x47 || b == 0x52 || b == 0x44 || b == 0x4d || b == 0x41 || b
        == 0x43 || b == 0x21
}

/// The flags that `s` spells, if every byte of it is a flag character: a
/// flag is set exactly when its character occurs.
pub open spec fn flags_of(s: Seq<u8>) -> Option<Flags> {
    if forall|i: int| 0 <= i < s.len() ==> is_flag_char(#[trigger] s[i]) {
        Some(
            Flags {
                up: s.contains(0x55),
                host: s.contains(0x48),
                gateway: s.contains(0x47),
                reinstate: s.contains(0x52),
                dynamically: s.contains(0x44),
                modified: s.contains(0x4d),
                addrconf: s.contains(0x41),
                cache: s.contains(0x43),
                reject: s.contains(0x21),
            },
        )
    } else {
        None
    }
}

proof fn lemma_contains_push(s: Seq<u8>, x: u8, y: u8)
    ensures
        s.push(x).contains(y) == (s.contains(y) || x == y),
{
    if s.contains(y) {
        let j = choose|j: int| 0 <= j < s.len() && s[j] == y;
        assert(s.push(x)[j] == y);
    }
    if x == y {
        assert(s.push(x)[s.len() as int] == y);
    }
    if s.push(x).contains(y) {
        let j = choose|j: int| 0 <= j < s.len() + 1 && s.push(x)[j] == y;
        if j < s.len() {
            assert(s[j] == y);
        }
    }
}

/// Reads the flags spelled in `s[lo..hi]`.
fn read_flags(s: &[u8], lo: usize, hi: usize) -> (r: Option<Flags>)
    requires
        lo <= hi <= s@.len(),
    ensures
        r == flags_of(s@.subrange(lo as int, hi as int)),
{
    let ghost t = s@.subrange(lo as int, hi as int);
    let mut f = Flags::default();
    let mut i: usize = lo;
    proof {
        assert(t.subrange(0, 0) =~= Seq::<u8>::empty());
    }
    while i < hi
        invariant
            lo <= i <= hi <= s@.len(),
            t == s@.subrange(lo as int, hi as int),
            forall|j: int| 0 <= j < i - lo ==> is_flag_char(#[trigger] t[j]),
            flags_of(t.subrange(0, i - lo)) == Some(f),
        decreases hi - i,
    {
        let b = s[i];
        let ghost p = t.subrange(0, i - lo);
        proof {
            assert(t.subrange(0, i + 1 - lo) =~= p.push(b));
            assert(forall|j: int| 0 <= j < p.len() ==> is_flag_char(#[trigger] p[j]));
            lemma_contains_push(p, b, 0x55);
            lemma_contains_push(p, b, 0x48);
            lemma_contains_push(p, b, 0x47);
            lemma_contains_push(p, b, 0x52);
            lemma_contains_push(p, b, 0x44);
            lemma_contains_push(p, b, 0x4d);
            lemma_contains_push(p, b, 0x41);
            lemma_contains_push(p, b, 0x43);
            lemma_contains_push(p, b, 0x21);
        }
        if b == 0x55 {
            f.up = true;
        } else if b == 0x48 {
            f.host = true;
        } else if b == 0x47 {
            f.gateway = true;
        } else if b == 0x52 {
            f.reinstate = true;
        } else if b == 0x44 {
            f.dynamically = true;
        } else if b == 0x4d {
            f.modified = true;
        } else if b == 0x41 {
            f.addrconf = true;
        } else if b == 0x43 {
            f.cache = true;
        } else if b == 0x21 {
            f.reject = true;
        } else {
            assert(!is_flag_char(t[i - lo]));
            return None;
        }
        proof {
            let q = t.subrange(0, i + 1 - lo);
            assert forall|j: int| 0 <= j < q.len() implies is_flag_char(#[trigger] q[j]) by {
                if j < p.len() {
                    assert(q[j] == p[j]);
                }
            }
        }
        i = i + 1;
    }
    assert(t.subrange(0, hi - lo) =~= t);
    Some(f)
}

impl Flags {
    /// Reads a flags column such as `UG`; any character outside `UHGRDMAC!`
    /// is an error.
    pub fn try_from(value: &str) -> (r: Result<Flags, Error>)
        ensures
            r == match flags_of(value.spec_bytes()) {
                Some(f) => Ok::<Flags, Error>(f),
                None => Err(Error::InvalidFlags),
            },
    {
        let bytes = value.as_bytes();
        match read_flags(bytes, 0, bytes.len()) {
            Some(f) => {
                assert(bytes@.subrange(0, bytes@.len() as int) =~= bytes@);
                Ok(f)
            },
            None => {
                assert(bytes@.subrange(0, bytes@.len() as int) =~= bytes@);
                Err(Error::InvalidFlags)
            },
        }
    }
}

/// The characters of `s`, each byte read as the character of the same code
/// point.
pub open spec fn latin1(s: Seq<u8>) -> Seq<char> {
    s.map_values(|b: u8| b as char)
}

/// Relies on `String::push`: the character is appended to the string.
#[verifier::external_body]
fn push_char(s: &mut String, c: char)
    ensures
        final(s)@ == old(s)@.push(c),
{
    s.push(c)
}

/// The string whose characters are the bytes of `s[lo..hi]`.
fn latin1_string(s: &[u8], lo: usize, hi: usize) -> (r: String)
    requires
        lo <= hi <= s@.len(),
    ensures
        r@ == latin1(s@.subrange(lo as int, hi as int)),
{
    let mut r = String::new();
    let mut i: usize = lo;
    while i < hi
        invariant
            lo <= i <= hi <= s@.len(),
            r@ == latin1(s@.subrange(lo as int, i as int)),
        decreases hi - i,
    {
        push_char(&mut r, s[i] as char);
        proof {
            assert(latin1(s@.subrange(lo as int, i + 1)) =~= latin1(
                s@.subrange(lo as int, i as int),
            ).push(s@[i as int] as char));
        }
        i = i + 1;
    }
    r
}

/// One row of a routing table.
#[derive(Debug)]
pub struct Route {
    /// The name of the interface that the route leaves by.
    pub iface: String,
    /// The next hop.
    pub gateway: Ipv4,
    /// The destination network.
    pub destination: Ipv4,
    pub flags: Flags,
}

/// What a route holds, with the interface name as its characters.
pub struct RouteView {
    pub iface: Seq<char>,
    pub gateway: Ipv4,
    pub destination: Ipv4,
    pub flags: Flags,
}

impl View for Route {
    type V = RouteView;

    open spec fn view(&self) -> RouteView {
        RouteView {
            iface: self.iface@,
            gateway: self.gateway,
            destination: self.destination,
            flags: self.flags,
        }
    }
}

/// The route a row starts from: no interface, both addresses `0.0.0.0`, no
/// flag set.
pub open spec fn default_route() -> RouteView {
    RouteView {
        iface: Seq::empty(),
        gateway: Ipv4 { a: 0, b: 0, c: 0, d: 0 },
        destination: Ipv4 { a: 0, b: 0, c: 0, d: 0 },
        flags: no_flags(),
    }
}

impl Default for Route {
    fn default() -> (r: Route)
        ensures
            r@ == default_route(),
    {
        Route {
            iface: String::new(),
            destination: Ipv4::unspecified(),
            gateway: Ipv4::unspecified(),
            flags: Flags::default(),
        }
    }
}

/// The route after the field at column `idx` of its row, `w`, is read into
/// `r`: column 0 is the destination, 1 the gateway, 3 the flags and 7 the
/// interface; columns 2, 4, 5 and 6 are ignored, and a ninth column is an
/// error.
pub open spec fn apply_field(r: RouteView, idx: int, w: Seq<u8>) -> Result<RouteView, Error> {
    if idx == 0 {
        match dotted_quad(w) {
            Some(a) => Ok(RouteView { destination: a, ..r }),
            None => Err(Error::InvalidAddress),
        }
    } else if idx == 1 {
        match dotted_quad(w) {
            Some(a) => Ok(RouteView { gateway: a, ..r }),
            None => Err(Error::InvalidAddress),
        }
    } else if idx == 3 {
        match flags_of(w) {
            Some(f) => Ok(RouteView { flags: f, ..r }),
            None => Err(Error::InvalidFlags),
        }
    } else if idx == 7 {
        Ok(RouteView { iface: latin1(w), ..r })
    } else if idx < 7 {
        Ok(r)
    } else {
        Err(Error::UnexpectedField)
    }
}

/// The route that a row with the fields `words` describes, or the first
/// failure among its fields.
pub open spec fn row_route(words: Seq<Seq<u8>>) -> Result<RouteView, Error>
    decreases words.len(),
{
    if words.len() == 0 {
        Ok(default_route())
    } else {
        match row_route(words.drop_last()) {
            Ok(r) => apply_field(r, words.len() - 1, words.last()),
            Err(e) => Err(e),
        }
    }
}

/// Reads the row in `s[lo..hi]`: its fields are the words that whitespace
/// closes there.
fn read_row(s: &[u8], lo: usize, hi: usize) -> (r: Result<Route, Error>)
    requires
        lo <= hi <= s@.len(),
    ensures
        match row_route(closed_words(s@.subrange(lo as int, hi as int))) {
            Ok(v) => r is Ok && r->Ok_0@ == v,
            Err(e) => r == Err::<Route, Error>(e),
        },
{
    let mut route = Route::default();
    let mut failed: Option<Error> = None;
    let mut word_start: Option<usize> = None;
    let mut idx: usize = 0;
    let mut i: usize = lo;
    proof {
        assert(s@.subrange(lo as int, lo as int) =~= Seq::<u8>::empty());
    }
    while i < hi
        invariant
            lo <= i <= hi <= s@.len(),
            idx == closed_words(s@.subrange(lo as int, i as int)).len(),
            idx <= i - lo,
            match word_start {
                Some(ws) => lo <= ws < i && s@.subrange(ws as int, i as int) == trailing_word(
                    s@.subrange(lo as int, i as int),
                ),
                None => trailing_word(s@.subrange(lo as int, i as int)).len() == 0,
            },
            match row_route(closed_words(s@.subrange(lo as int, i as int))) {
                Ok(v) => failed is None && route@ == v,
                Err(e) => failed == Some(e),
            },
        decreases hi - i,
    {
        let b = s[i];
        let ghost before = s@.subrange(lo as int, i as int);
        let ghost after = s@.subrange(lo as int, i + 1);
        proof {
            assert(after.drop_last() =~= before);
        }
        if is_space_byte(b) {
            if let Some(ws) = word_start {
                let ghost w = s@.subrange(ws as int, i as int);
                proof {
                    assert(closed_words(after) == closed_words(before).push(w));
                    assert(closed_words(before).push(w).drop_last() =~= closed_words(before));
                    assert(row_route(closed_words(after)) == match row_route(
                        closed_words(before),
                    ) {
                        Ok(r) => apply_field(r, idx as int, w),
                        Err(e) => Err(e),
                    });
                }
                if failed.is_none() {
                    if idx == 0 {
                        match read_ipv4(s, ws, i) {
                            Some(a) => route.destination = a,
                            None => failed = Some(Error::InvalidAddress),
                        }
                    } else if idx == 1 {
                        match read_ipv4(s, ws, i) {
                            Some(a) => route.gateway = a,
                            None => failed = Some(Error::InvalidAddress),
                        }
                    } else if idx == 3 {
                        match read_flags(s, ws, i) {
                            Some(f) => route.flags = f,
                            None => failed = Some(Error::InvalidFlags),
                        }
                    } else if idx == 7 {
                        route.iface = latin1_string(s, ws, i);
                    } else if idx > 7 {
                        failed = Some(Error::UnexpectedField);
                    }
                }
                idx = idx + 1;
                word_start = None;
            } else {
                assert(closed_words(after) == closed_words(before));
            }
        } else {
            assert(closed_words(after) == closed_words(before));
            if word_start.is_none() {
                word_start = Some(i);
                proof {
                    assert(s@.subrange(i as int, i + 1) =~= Seq::<u8>::empty().push(b));
                }
            } else {
                proof {
                    let ws = word_start->0;
                    assert(s@.subrange(ws as int, i + 1) =~= s@.subrange(ws as int, i as int).push(
                        b,
                    ));
                }
            }
        }
        i = i + 1;
    }
    match failed {
        Some(e) => Err(e),
        None => Ok(route),
    }
}

/// The line-feed byte that ends each line of the table.
pub const NEWLINE: u8 = 0x0a;

/// The routes of the complete lines `lines` (each without its line feed),
/// in order, or the failure of the first line that fails.
pub open spec fn routes_of(lines: Seq<Seq<u8>>) -> Result<Seq<RouteView>, Error>
    decreases lines.len(),
{
    if lines.len() == 0 {
        Ok(Seq::empty())
    } else {
        match routes_of(lines.drop_last()) {
            Ok(rs) => match row_route(closed_words(lines.last().push(NEWLINE))) {
                Ok(r) => Ok(rs.push(r)),
                Err(e) => Err(e),
            },
            Err(e) => Err(e),
        }
    }
}

/// What parsing the table text `t` gives. The first two lines are headers
/// and are skipped; each later line that a line feed ends is one route. Text
/// after the last line feed makes no route, but its closed fields are still
/// read and can fail.
pub open spec fn table_routes(t: Seq<u8>) -> Result<Seq<RouteView>, Error> {
    let lines = split_on(t, NEWLINE);
    if lines.len() < 3 {
        Err(Error::MissingHeader)
    } else {
        match routes_of(lines.subrange(2, lines.len() - 1)) {
            Ok(rs) => match row_route(closed_words(lines.last())) {
                Ok(_) => Ok(rs),
                Err(e) => Err(e),
            },
            Err(e) => Err(e),
        }
    }
}

/// Once a prefix of the lines fails, all of them fail the same way.
pub proof fn lemma_routes_of_failure_stays(lines: Seq<Seq<u8>>, k: int)
    requires
        0 <= k <= lines.len(),
        routes_of(lines.subrange(0, k)) is Err,
    ensures
        routes_of(lines) == routes_of(lines.subrange(0, k)),
    decreases lines.len() - k,
{
    if k < lines.len() {
        assert(lines.subrange(0, k + 1).drop_last() =~= lines.subrange(0, k));
        lemma_routes_of_failure_stays(lines, k + 1);
    } else {
        assert(lines.subrange(0, k) =~= lines);
    }
}

/// The views of a list of routes.
pub open spec fn views(rs: Seq<Route>) -> Seq<RouteView> {
    rs.map_values(|r: Route| r@)
}

/// Parses the output of an IPv4 routing-table listing (`route -n4`): two
/// header lines, then one route per line, in columns destination, gateway,
/// mask, flags, metric, ref, use and interface, separated by whitespace.
pub fn parse(output: &[u8]) -> (r: Result<Vec<Route>, Error>)
    ensures
        match table_routes(output@) {
            Ok(rs) => r is Ok && views(r->Ok_0@) == rs,
            Err(e) => r == Err::<Vec<Route>, Error>(e),
        },
{
    let n = output.len();
    let lines = split_ranges(output, 0, n, NEWLINE);
    let ghost ls = split_on(output@, NEWLINE);
    proof {
        assert(output@.subrange(0, output@.len() as int) =~= output@);
    }
    if lines.len() < 3 {
        return Err(Error::MissingHeader);
    }
    let ghost data = ls.subrange(2, ls.len() - 1);
    let mut routes: Vec<Route> = Vec::new();
    let mut k: usize = 2;
    proof {
        assert(data.subrange(0, 0) =~= Seq::<Seq<u8>>::empty());
        assert(views(routes@) =~= Seq::<RouteView>::empty());
    }
    while k + 1 < lines.len()
        invariant
            2 <= k <= lines@.len() - 1,
            lines@.len() == ls.len(),
            ls == split_on(output@, NEWLINE),
            data == ls.subrange(2, ls.len() - 1),
            n == output@.len(),
            forall|j: int|
                0 <= j < lines@.len() ==> {
                    &&& (#[trigger] lines@[j]).0 <= lines@[j].1 <= output@.len()
                    &&& output@.subrange(lines@[j].0 as int, lines@[j].1 as int) == ls[j]
                    &&& (j + 1 < lines@.len() ==> lines@[j].1 < output@.len()
                        && output@[lines@[j].1 as int] == NEWLINE)
                },
            routes_of(data.subrange(0, k - 2)) == Ok::<Seq<RouteView>, Error>(views(routes@)),
        decreases lines.len() - k,
    {
        let (lo, hi) = lines[k];
        proof {
            assert(lines@[k as int] == (lo, hi));
            assert(k + 1 < lines@.len());
            assert(output@.subrange(lo as int, hi + 1) =~= ls[k as int].push(NEWLINE));
            assert(data.subrange(0, k + 1 - 2).drop_last() =~= data.subrange(0, k - 2));
            assert(data.subrange(0, k + 1 - 2).last() == ls[k as int]);
        }
        assert(hi < n);
        let ghost line = data.subrange(0, k + 1 - 2);
        let ghost old_routes = routes@;
        proof {
            assert(routes_of(line) == match routes_of(line.drop_last()) {
                Ok(rs) => match row_route(closed_words(line.last().push(NEWLINE))) {
                    Ok(r) => Ok(rs.push(r)),
                    Err(e) => Err(e),
                },
                Err(e) => Err(e),
            });
        }
        match read_row(output, lo, hi + 1) {
            Ok(route) => {
                let ghost rv = route@;
                routes.push(route);
                proof {
                    assert(views(routes@) =~= views(old_routes).push(rv));
                }
            },
            Err(e) => {
                proof {
                    lemma_routes_of_failure_stays(data, k + 1 - 2);
                }
                return Err(e);
            },
        }
        k = k + 1;
    }
    proof {
        assert(data.subrange(0, k - 2) =~= data);
    }
    let (lo, hi) = lines[k];
    assert(lines@[k as int] == (lo, hi));
    match read_row(output, lo, hi) {
        Ok(_) => Ok(routes),
        Err(e) => Err(e),
    }
}

/// The route of a complete line of the table (given without its line feed).
pub open spec fn line_route(line: Seq<u8>) -> Result<RouteView, Error> {
    row_route(closed_words(line.push(NEWLINE)))
}

proof fn lemma_routes_of_all_ok(lines: Seq<Seq<u8>>)
    requires
        forall|i: int| 0 <= i < lines.len() ==> line_route(#[trigger] lines[i]) is Ok,
    ensures
        routes_of(lines) is Ok,
        routes_of(lines)->Ok_0.len() == lines.len(),
        forall|i: int|
            0 <= i < lines.len() ==> routes_of(lines)->Ok_0[i] == line_route(
                #[trigger] lines[i],
            )->Ok_0,
    decreases lines.len(),
{
    if lines.len() > 0 {
        let init = lines.drop_last();
        assert forall|i: int| 0 <= i < init.len() implies line_route(#[trigger] init[i]) is Ok by {
            assert(init[i] == lines[i]);
        }
        lemma_routes_of_all_ok(init);
        assert(line_route(lines[lines.len() - 1]) is Ok);
        assert forall|i: int| 0 <= i < lines.len() implies routes_of(lines)->Ok_0[i] == line_route(
            #[trigger] lines[i],
        )->Ok_0 by {
            if i < init.len() {
                assert(init[i] == lines[i]);
            }
        }
    }
}

/// A table whose every row reads gives exactly one route per data line (each
/// line that a line feed ends after the two header lines), in input order:
/// the route of that line.
pub proof fn lemma_one_route_per_row(t: Seq<u8>)
    requires
        split_on(t, NEWLINE).len() >= 3,
        forall|i: int|
            2 <= i < split_on(t, NEWLINE).len() - 1 ==> line_route(
                #[trigger] split_on(t, NEWLINE)[i],
            ) is Ok,
        row_route(closed_words(split_on(t, NEWLINE).last())) is Ok,
    ensures
        table_routes(t) is Ok,
        table_routes(t)->Ok_0.len() == split_on(t, NEWLINE).len() - 3,
        forall|i: int|
            0 <= i < table_routes(t)->Ok_0.len() ==> #[trigger] table_routes(t)->Ok_0[i]
                == line_route(split_on(t, NEWLINE)[i + 2])->Ok_0,
{
    let lines = split_on(t, NEWLINE);
    let data = lines.subrange(2, lines.len() - 1);
    assert forall|i: int| 0 <= i < data.len() implies line_route(#[trigger] data[i]) is Ok by {
        assert(data[i] == lines[i + 2]);
    }
    lemma_routes_of_all_ok(data);
    assert forall|i: int| 0 <= i < table_routes(t)->Ok_0.len() implies #[trigger] table_routes(
        t,
    )->Ok_0[i] == line_route(lines[i + 2])->Ok_0 by {
        assert(data[i] == lines[i + 2]);
    }
}

/// Once a prefix of a row's fields fails, the row fails the same way.
proof fn lemma_row_failure_stays(words: Seq<Seq<u8>>, k: int)
    requires
        0 <= k <= words.len(),
        row_route(words.subrange(0, k)) is Err,
    ensures
        row_route(words) == row_route(words.subrange(0, k)),
    decreases words.len() - k,
{
    if k < words.len() {
        assert(words.subrange(0, k + 1).drop_last() =~= words.subrange(0, k));
        lemma_row_failure_stays(words, k + 1);
    } else {
        assert(words.subrange(0, k) =~= words);
    }
}

/// A data line whose row fails makes the whole table fail.
pub proof fn lemma_failing_row_fails_table(t: Seq<u8>, i: int)
    requires
        2 <= i < split_on(t, NEWLINE).len() - 1,
        line_route(split_on(t, NEWLINE)[i]) is Err,
    ensures
        table_routes(t) is Err,
{
    let lines = split_on(t, NEWLINE);
    let data = lines.subrange(2, lines.len() - 1);
    let k = i - 2;
    assert(data.subrange(0, k + 1).drop_last() =~= data.subrange(0, k));
    assert(data.subrange(0, k + 1).last() == lines[i]);
    assert(routes_of(data.subrange(0, k + 1)) is Err);
    lemma_routes_of_failure_stays(data, k + 1);
}

/// A data row whose destination or gateway field is not a dotted quad makes
/// the table fail.
pub proof fn lemma_bad_address_fails(t: Seq<u8>, i: int)
    requires
        2 <= i < split_on(t, NEWLINE).len() - 1,
        closed_words(split_on(t, NEWLINE)[i].push(NEWLINE)).len() >= 2,
        dotted_quad(closed_words(split_on(t, NEWLINE)[i].push(NEWLINE))[0]) is None
            || dotted_quad(closed_words(split_on(t, NEWLINE)[i].push(NEWLINE))[1]) is None,
    ensures
        table_routes(t) is Err,
{
    let w = closed_words(split_on(t, NEWLINE)[i].push(NEWLINE));
    let w1 = w.subrange(0, 1);
    let w2 = w.subrange(0, 2);
    assert(w1.drop_last() =~= Seq::<Seq<u8>>::empty());
    assert(w2.drop_last() =~= w1);
    assert(w1.last() == w[0]);
    assert(w2.last() == w[1]);
    assert(row_route(w1.drop_last()) == Ok::<RouteView, Error>(default_route()));
    if dotted_quad(w[0]) is None {
        assert(row_route(w1) is Err);
    } else {
        assert(row_route(w1) is Ok);
    }
    assert(row_route(w2) is Err);
    lemma_row_failure_stays(w, 2);
    lemma_failing_row_fails_table(t, i);
}

/// A data row whose address fields read but whose flags field holds a
/// character outside the flag set makes the table fail.
pub proof fn lemma_bad_flag_fails(t: Seq<u8>, i: int)
    requires
        2 <= i < split_on(t, NEWLINE).len() - 1,
        closed_words(split_on(t, NEWLINE)[i].push(NEWLINE)).len() >= 4,
        exists|j: int|
            0 <= j < closed_words(split_on(t, NEWLINE)[i].push(NEWLINE))[3].len()
                && !is_flag_char(
                #[trigger] closed_words(split_on(t, NEWLINE)[i].push(NEWLINE))[3][j],
            ),
    ensures
        table_routes(t) is Err,
{
    let w = closed_words(split_on(t, NEWLINE)[i].push(NEWLINE));
    let w4 = w.subrange(0, 4);
    assert(w4.drop_last().drop_last().drop_last().drop_last() =~= Seq::<Seq<u8>>::empty());
    assert(w4.last() == w[3]);
    assert(flags_of(w[3]) is None);
    assert(row_route(w4) is Err);
    lemma_row_failure_stays(w, 4);
    lemma_failing_row_fails_table(t, i);
}

} // verus!
