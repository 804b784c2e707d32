//! Reading an IBKR Flex XML statement into trades, NAV points and cash flows.

use vstd::prelude::*;

use crate::decimal::{fixed_parse, parse_fixed};
use crate::metrics::NavPoint;
use crate::round_trips::FlexTrade;
use crate::text::{contains_seq, contains_str, replace_all, replace_str, seq_lt, str_eq, str_lt};

verus! {

// ── the document ─────────────────────────────────────────────────────────────

/// One node of a parsed XML document: whether it is an element, its local tag name
/// (empty for non-elements) and its attributes `(local name, value)` in order.
#[derive(Debug)]
pub struct XmlNode {
    pub is_element: bool,
    pub tag: String,
    pub attrs: Vec<(String, String)>,
}

pub struct XmlNodeView {
    pub is_element: bool,
    pub tag: Seq<char>,
    pub attrs: Seq<(Seq<char>, Seq<char>)>,
}

impl View for XmlNode {
    type V = XmlNodeView;

    open spec fn view(&self) -> XmlNodeView {
        XmlNodeView {
            is_element: self.is_element,
            tag: self.tag@,
            attrs: self.attrs@.map_values(|a: (String, String)| (a.0@, a.1@)),
        }
    }
}

pub open spec fn node_views(v: Seq<XmlNode>) -> Seq<XmlNodeView> {
    v.map_values(|n: XmlNode| n@)
}

/// What `roxmltree` makes of a text: the root element and all its descendants in
/// document order, or the parser's error text.
pub uninterp spec fn xml_parse(text: Seq<char>) -> Result<Seq<XmlNodeView>, Seq<char>>;

pub open spec fn parsed_view(r: Result<Vec<XmlNode>, String>) -> Result<Seq<XmlNodeView>, Seq<char>> {
    match r {
        Ok(v) => Ok(node_views(v@)),
        Err(e) => Err(e@),
    }
}

/// `roxmltree::Document::parse`, walked from the root element through
/// `descendants()`; each node is copied as is (`is_element`, `tag_name().name()`, and
/// `attributes()` by name and value), and a parse error becomes its text. Trusted: the
/// result is a function of the text alone, named `xml_parse`; nothing of XML itself is
/// stated.
#[verifier::external_body]
fn read_xml(text: &str) -> (r: Result<Vec<XmlNode>, String>)
    ensures
        parsed_view(r) == xml_parse(text@),
{
    match roxmltree::Document::parse(text) {
        Ok(doc) => Ok(doc.root_element().descendants().map(|n| XmlNode {
            is_element: n.is_element(),
            tag: n.tag_name().name().to_string(),
            attrs: n.attributes().map(|a| (a.name().to_string(), a.value().to_string())).collect(),
        }).collect()),
        Err(e) => Err(e.to_string()),
    }
}

// ── attributes ───────────────────────────────────────────────────────────────

/// The value of the first attribute named `name` (empty when there is none).
pub open spec fn attr_spec(attrs: Seq<(Seq<char>, Seq<char>)>, name: Seq<char>) -> Seq<char>
    decreases attrs.len(),
{
    if attrs.len() == 0 {
        Seq::empty()
    } else if attrs[0].0 == name {
        attrs[0].1
    } else {
        attr_spec(attrs.drop_first(), name)
    }
}

/// A numeric attribute: its value with `,` separators removed, read as fixed-point; 0
/// when absent or unreadable.
pub open spec fn amount_spec(attrs: Seq<(Seq<char>, Seq<char>)>, name: Seq<char>) -> int {
    match fixed_parse(replace_all(attr_spec(attrs, name), ","@, Seq::empty())) {
        Some(v) => v,
        None => 0,
    }
}

fn attr(n: &XmlNode, name: &str) -> (r: String)
    ensures
        r@ == attr_spec(n@.attrs, name@),
{
    let ghost all = n@.attrs;
    let mut i: usize = 0;
    proof {
        assert(all.skip(0) =~= all);
    }
    while i < n.attrs.len()
        invariant
            i <= n.attrs@.len(),
            all == n@.attrs,
            attr_spec(all, name@) == attr_spec(all.skip(i as int), name@),
        decreases n.attrs.len() - i,
    {
        proof {
            assert(all.skip(i as int).drop_first() =~= all.skip(i + 1));
            assert(all.skip(i as int)[0] == (n.attrs@[i as int].0@, n.attrs@[i as int].1@));
        }
        if str_eq(n.attrs[i].0.as_str(), name) {
            return n.attrs[i].1.clone();
        }
        i = i + 1;
    }
    String::new()
}

fn amount(n: &XmlNode, name: &str) -> (r: i64)
    ensures
        r == amount_spec(n@.attrs, name@),
{
    proof {
        reveal_strlit(",");
        reveal_strlit("");
    }
    let v = attr(n, name);
    let clean = replace_str(v.as_str(), ",", "");
    proof {
        assert(""@ =~= Seq::<char>::empty());
        assert(clean@ == replace_all(attr_spec(n@.attrs, name@), ","@, Seq::empty()));
    }
    match parse_fixed(clean.as_str()) {
        Some(x) => x,
        None => 0,
    }
}

// ── records ──────────────────────────────────────────────────────────────────

/// A deposit or withdrawal.
#[derive(Debug)]
pub struct Cashflow {
    /// `YYYYMMDD` (the first eight bytes of the statement's date-time).
    pub date: String,
    /// Amount (fixed-point).
    pub amount: i64,
}

/// UTF-8 length of a character.
pub open spec fn char_bytes(c: char) -> int {
    if (c as u32) < 0x80 {
        1
    } else if (c as u32) < 0x800 {
        2
    } else if (c as u32) < 0x10000 {
        3
    } else {
        4
    }
}

pub open spec fn bytes_of(s: Seq<char>) -> int
    decreases s.len(),
{
    if s.len() == 0 {
        0
    } else {
        bytes_of(s.drop_last()) + char_bytes(s.last())
    }
}

/// The first eight bytes of `d` when they end on a character boundary, else all of `d`
/// (what `d.get(..8)` falls back from).
pub open spec fn first8(d: Seq<char>) -> Seq<char> {
    if exists|k: int| 0 <= k <= d.len() && bytes_of(#[trigger] d.take(k)) == 8 {
        d.take(choose|k: int| 0 <= k <= d.len() && bytes_of(#[trigger] d.take(k)) == 8)
    } else {
        d
    }
}

proof fn lemma_bytes_monotone(d: Seq<char>, a: int, b: int)
    requires
        0 <= a < b <= d.len(),
    ensures
        bytes_of(d.take(a)) < bytes_of(d.take(b)),
    decreases b - a,
{
    assert(d.take(b).drop_last() =~= d.take(b - 1));
    if a < b - 1 {
        lemma_bytes_monotone(d, a, b - 1);
    }
}

fn utf8_len(c: char) -> (r: usize)
    ensures
        r == char_bytes(c),
{
    let v = c as u32;
    if v < 0x80 {
        1
    } else if v < 0x800 {
        2
    } else if v < 0x10000 {
        3
    } else {
        4
    }
}

/// The first eight bytes of a date-time, as [`first8`] takes them.
fn date8(d: &str) -> (r: String)
    ensures
        r@ == first8(d@),
{
    let n = d.unicode_len();
    let mut k: usize = 0;
    let mut bytes: usize = 0;
    proof {
        assert(d@.take(0) =~= Seq::<char>::empty());
    }
    while k < n && bytes < 8
        invariant
            n == d@.len(),
            k <= n,
            bytes == bytes_of(d@.take(k as int)),
            bytes <= 11,
            forall|j: int| 0 <= j < k ==> bytes_of(d@.take(j)) < 8,
        decreases n - k,
    {
        proof {
            assert(d@.take(k + 1).drop_last() =~= d@.take(k as int));
        }
        bytes = bytes + utf8_len(d.get_char(k));
        k = k + 1;
    }
    if bytes == 8 {
        proof {
            let w = choose|j: int| 0 <= j <= d@.len() && bytes_of(#[trigger] d@.take(j)) == 8;
            if w < k {
                lemma_bytes_monotone(d@, w, k as int);
            } else if w > k {
                lemma_bytes_monotone(d@, k as int, w);
            }
        }
        d.substring_char(0, k).to_string()
    } else {
        proof {
            assert forall|j: int| 0 <= j <= d@.len() implies bytes_of(#[trigger] d@.take(j)) != 8 by {
                if j > k {
                    lemma_bytes_monotone(d@, k as int, j);
                }
            }
        }
        d.to_string()
    }
}

/// The trade an element describes (the commission as a cost, unsigned; the quantity in
/// fixed-point shares, fractions kept).
pub open spec fn trade_of(a: Seq<(Seq<char>, Seq<char>)>, t: FlexTrade) -> bool {
    let qty = amount_spec(a, "quantity"@);
    let comm = amount_spec(a, "ibCommission"@);
    &&& t.date_time@ == attr_spec(a, "dateTime"@)
    &&& t.symbol@ == attr_spec(a, "symbol"@)
    &&& t.side@ == attr_spec(a, "buySell"@)
    &&& t.quantity == qty
    &&& t.price == amount_spec(a, "tradePrice"@)
    &&& t.proceeds == amount_spec(a, "proceeds"@)
    &&& t.commission == (if comm < 0 {
        -comm
    } else {
        comm
    })
    &&& t.realized_pnl == amount_spec(a, "realizedPnL"@)
    &&& t.asset_category@ == attr_spec(a, "assetCategory"@)
    &&& t.currency@ == attr_spec(a, "currency"@)
    &&& t.description@ == attr_spec(a, "description"@)
    &&& t.sector@ == Seq::<char>::empty()
}


// ── ordering by date ─────────────────────────────────────────────────────────

/// Records ordered by a date text.
pub trait Dated: Sized {
    spec fn date_view(&self) -> Seq<char>;

    fn date_str(&self) -> (r: &str)
        ensures
            r@ == self.date_view(),
    ;
}

impl Dated for FlexTrade {
    open spec fn date_view(&self) -> Seq<char> {
        self.date_time@
    }

    fn date_str(&self) -> (r: &str) {
        self.date_time.as_str()
    }
}

impl Dated for NavPoint {
    open spec fn date_view(&self) -> Seq<char> {
        self.date@
    }

    fn date_str(&self) -> (r: &str) {
        self.date.as_str()
    }
}

impl Dated for Cashflow {
    open spec fn date_view(&self) -> Seq<char> {
        self.date@
    }

    fn date_str(&self) -> (r: &str) {
        self.date.as_str()
    }
}

/// Insert `x` into `sorted` after every record dated no later than it.
pub open spec fn insert_by_date<T: Dated>(sorted: Seq<T>, x: T) -> Seq<T>
    decreases sorted.len(),
{
    if sorted.len() == 0 {
        seq![x]
    } else if seq_lt(x.date_view(), sorted[0].date_view()) {
        seq![x] + sorted
    } else {
        seq![sorted[0]] + insert_by_date(sorted.drop_first(), x)
    }
}

/// `s` stably ordered by date.
pub open spec fn sort_by_date<T: Dated>(s: Seq<T>) -> Seq<T>
    decreases s.len(),
{
    if s.len() == 0 {
        s
    } else {
        insert_by_date(sort_by_date(s.drop_last()), s.last())
    }
}

fn insert_dated<T: Dated>(sorted: &mut Vec<T>, x: T)
    ensures
        final(sorted)@ == insert_by_date(old(sorted)@, x),
{
    let ghost s0 = sorted@;
    let n = sorted.len();
    let mut k: usize = 0;
    proof {
        assert(s0.skip(0) =~= s0);
        assert(s0.take(0) =~= Seq::<T>::empty());
    }
    while k < n && !str_lt(x.date_str(), sorted[k].date_str())
        invariant
            n == sorted@.len(),
            sorted@ == s0,
            k <= n,
            insert_by_date(s0, x) == s0.take(k as int) + insert_by_date(s0.skip(k as int), x),
        decreases n - k,
    {
        proof {
            let rest = s0.skip(k as int);
            assert(rest[0] == s0[k as int]);
            assert(rest.drop_first() =~= s0.skip(k + 1));
            assert(s0.take(k + 1) =~= s0.take(k as int).push(s0[k as int]));
            assert(insert_by_date(rest, x) == seq![rest[0]] + insert_by_date(rest.drop_first(), x));
            assert(s0.take(k as int) + (seq![rest[0]] + insert_by_date(s0.skip(k + 1), x)) =~= s0.take(
                k + 1,
            ) + insert_by_date(s0.skip(k + 1), x));
        }
        k = k + 1;
    }
    let ghost xr = x;
    sorted.insert(k, x);
    proof {
        assert(sorted@ == s0.insert(k as int, xr));
        let rest = s0.skip(k as int);
        if k < n {
            assert(rest[0] == s0[k as int]);
            assert(insert_by_date(rest, xr) == seq![xr] + rest);
        } else {
            assert(rest =~= Seq::<T>::empty());
        }
        assert(sorted@ =~= s0.take(k as int) + (seq![xr] + rest));
    }
}

/// Order records stably by date (as `sort_by` on the date text does).
pub fn sort_dated<T: Dated>(v: Vec<T>) -> (r: Vec<T>)
    ensures
        r@ == sort_by_date(v@),
{
    let ghost all = v@;
    let mut src = v;
    let mut rev: Vec<T> = Vec::new();
    while src.len() > 0
        invariant
            all.len() == src@.len() + rev@.len(),
            src@ == all.take(src@.len() as int),
            forall|j: int| 0 <= j < rev@.len() ==> #[trigger] rev@[j] == all[all.len() - 1 - j],
        decreases src.len(),
    {
        let ghost before = src@;
        let x = src.pop().unwrap();
        proof {
            assert(src@ == before.drop_last());
            assert(src@ =~= all.take(src@.len() as int));
        }
        let ghost rev0 = rev@;
        rev.push(x);
        proof {
            assert forall|j: int| 0 <= j < rev@.len() implies #[trigger] rev@[j] == all[all.len() - 1 - j] by {
                if j < rev0.len() {
                    assert(rev@[j] == rev0[j]);
                }
            }
        }
    }
    let mut out: Vec<T> = Vec::new();
    let ghost mut taken: int = 0;
    proof {
        assert(sort_by_date(all.take(0)) =~= out@);
    }
    while rev.len() > 0
        invariant
            0 <= taken <= all.len(),
            taken + rev@.len() == all.len(),
            forall|j: int| 0 <= j < rev@.len() ==> #[trigger] rev@[j] == all[all.len() - 1 - j],
            out@ == sort_by_date(all.take(taken)),
        decreases rev.len(),
    {
        let ghost rev0 = rev@;
        let x = rev.pop().unwrap();
        proof {
            assert(rev@ == rev0.drop_last());
            assert(x == all[taken]);
            assert(all.take(taken + 1).drop_last() =~= all.take(taken));
            assert(all.take(taken + 1).last() == all[taken]);
        }
        insert_dated(&mut out, x);
        proof {
            taken = taken + 1;
            assert forall|j: int| 0 <= j < rev@.len() implies #[trigger] rev@[j] == all[all.len() - 1 - j] by {
                assert(rev@[j] == rev0[j]);
            }
        }
    }
    proof {
        assert(all.take(taken) =~= all);
    }
    out
}

/// `s` with every record dated the same as the record kept just before it dropped.
pub open spec fn dedup_dates<T: Dated>(s: Seq<T>) -> Seq<T>
    decreases s.len(),
{
    if s.len() == 0 {
        s
    } else {
        let kept = dedup_dates(s.drop_last());
        if kept.len() > 0 && kept.last().date_view() == s.last().date_view() {
            kept
        } else {
            kept.push(s.last())
        }
    }
}

/// Drop records dated the same as the one kept before them (as `dedup_by` on the date
/// does).
pub fn dedup_dated<T: Dated>(v: Vec<T>) -> (r: Vec<T>)
    ensures
        r@ == dedup_dates(v@),
{
    let ghost all = v@;
    let mut src = v;
    let mut rev: Vec<T> = Vec::new();
    while src.len() > 0
        invariant
            all.len() == src@.len() + rev@.len(),
            src@ == all.take(src@.len() as int),
            forall|j: int| 0 <= j < rev@.len() ==> #[trigger] rev@[j] == all[all.len() - 1 - j],
        decreases src.len(),
    {
        let ghost before = src@;
        let x = src.pop().unwrap();
        proof {
            assert(src@ == before.drop_last());
            assert(src@ =~= all.take(src@.len() as int));
        }
        let ghost rev0 = rev@;
        rev.push(x);
        proof {
            assert forall|j: int| 0 <= j < rev@.len() implies #[trigger] rev@[j] == all[all.len() - 1 - j] by {
                if j < rev0.len() {
                    assert(rev@[j] == rev0[j]);
                }
            }
        }
    }
    let mut out: Vec<T> = Vec::new();
    let ghost mut taken: int = 0;
    proof {
        assert(dedup_dates(all.take(0)) =~= out@);
    }
    while rev.len() > 0
        invariant
            0 <= taken <= all.len(),
            taken + rev@.len() == all.len(),
            forall|j: int| 0 <= j < rev@.len() ==> #[trigger] rev@[j] == all[all.len() - 1 - j],
            out@ == dedup_dates(all.take(taken)),
        decreases rev.len(),
    {
        let ghost rev0 = rev@;
        let x = rev.pop().unwrap();
        proof {
            assert(rev@ == rev0.drop_last());
            assert(x == all[taken]);
            assert(all.take(taken + 1).drop_last() =~= all.take(taken));
            assert(all.take(taken + 1).last() == all[taken]);
        }
        let n = out.len();
        let same = n > 0 && crate::text::str_eq(out[n - 1].date_str(), x.date_str());
        if !same {
            out.push(x);
        }
        proof {
            taken = taken + 1;
            assert forall|j: int| 0 <= j < rev@.len() implies #[trigger] rev@[j] == all[all.len() - 1 - j] by {
                assert(rev@[j] == rev0[j]);
            }
        }
    }
    proof {
        assert(all.take(taken) =~= all);
    }
    out
}


// ── the statement ────────────────────────────────────────────────────────────

pub type Attrs = Seq<(Seq<char>, Seq<char>)>;

/// The attributes of the `Trade` elements kept as trades: a symbol and a non-zero
/// quantity.
pub open spec fn trade_attrs(nodes: Seq<XmlNodeView>) -> Seq<Attrs>
    decreases nodes.len(),
{
    if nodes.len() == 0 {
        Seq::empty()
    } else {
        let rest = trade_attrs(nodes.drop_last());
        let n = nodes.last();
        if n.is_element && n.tag == "Trade"@ && attr_spec(n.attrs, "symbol"@).len() > 0 && amount_spec(
            n.attrs,
            "quantity"@,
        ) != 0 {
            rest.push(n.attrs)
        } else {
            rest
        }
    }
}

/// The NAV points of a statement: `EquitySummaryByReportDateInBase` /
/// `EquitySummaryInBase` totals and `ChangeInNAV` ending values, dated by `reportDate`,
/// kept when dated and positive.
pub open spec fn nav_recs(nodes: Seq<XmlNodeView>) -> Seq<(Seq<char>, int)>
    decreases nodes.len(),
{
    if nodes.len() == 0 {
        Seq::empty()
    } else {
        let rest = nav_recs(nodes.drop_last());
        let n = nodes.last();
        let date = attr_spec(n.attrs, "reportDate"@);
        if n.is_element && (n.tag == "EquitySummaryByReportDateInBase"@ || n.tag == "EquitySummaryInBase"@) {
            let total = amount_spec(n.attrs, "total"@);
            if total <= 0 || date.len() == 0 {
                rest
            } else {
                rest.push((date, total))
            }
        } else if n.is_element && n.tag == "ChangeInNAV"@ {
            let total = amount_spec(n.attrs, "endingValue"@);
            if total > 0 && date.len() > 0 {
                rest.push((date, total))
            } else {
                rest
            }
        } else {
            rest
        }
    }
}

/// The cash flows of a statement: `CashTransaction`s whose type mentions a deposit or a
/// withdrawal, with a date.
pub open spec fn cash_recs(nodes: Seq<XmlNodeView>) -> Seq<(Seq<char>, int)>
    decreases nodes.len(),
{
    if nodes.len() == 0 {
        Seq::empty()
    } else {
        let rest = cash_recs(nodes.drop_last());
        let n = nodes.last();
        let kind = attr_spec(n.attrs, "type"@);
        let d = attr_spec(n.attrs, "dateTime"@);
        if n.is_element && n.tag == "CashTransaction"@ && (contains_seq(kind, "Deposit"@) || contains_seq(
            kind,
            "Withdrawal"@,
        )) && d.len() > 0 {
            rest.push((first8(d), amount_spec(n.attrs, "amount"@)))
        } else {
            rest
        }
    }
}

pub open spec fn nav_views(v: Seq<NavPoint>) -> Seq<(Seq<char>, int)> {
    v.map_values(|p: NavPoint| (p.date@, p.nav as int))
}

pub open spec fn cash_views(v: Seq<Cashflow>) -> Seq<(Seq<char>, int)> {
    v.map_values(|c: Cashflow| (c.date@, c.amount as int))
}

/// The trades `t` are those the kept `Trade` elements describe, in order.
pub open spec fn trades_from(attrs: Seq<Attrs>, t: Seq<FlexTrade>) -> bool {
    t.len() == attrs.len() && forall|k: int| 0 <= k < t.len() ==> trade_of(attrs[k], #[trigger] t[k])
}

fn trade_from(n: &XmlNode) -> (t: FlexTrade)
    ensures
        trade_of(n@.attrs, t),
{
    proof {
        reveal_strlit("dateTime");
        reveal_strlit("symbol");
        reveal_strlit("buySell");
        reveal_strlit("quantity");
        reveal_strlit("tradePrice");
        reveal_strlit("proceeds");
        reveal_strlit("ibCommission");
        reveal_strlit("realizedPnL");
        reveal_strlit("assetCategory");
        reveal_strlit("currency");
        reveal_strlit("description");
    }
    let q = amount(n, "quantity");
    let quantity = q;
    let c = amount(n, "ibCommission");
    proof {
        let v = replace_all(attr_spec(n@.attrs, "ibCommission"@), ","@, Seq::empty());
        assert(fixed_parse(v) matches Some(x) ==> x >= -i64::MAX);
    }
    let commission = if c < 0 {
        -c
    } else {
        c
    };
    let t = FlexTrade {
        date_time: attr(n, "dateTime"),
        symbol: attr(n, "symbol"),
        side: attr(n, "buySell"),
        quantity,
        price: amount(n, "tradePrice"),
        proceeds: amount(n, "proceeds"),
        commission,
        realized_pnl: amount(n, "realizedPnL"),
        asset_category: attr(n, "assetCategory"),
        currency: attr(n, "currency"),
        description: attr(n, "description"),
        sector: String::new(),
    };
    t
}


fn tag_is(n: &XmlNode, t: &str) -> (r: bool)
    ensures
        r == (n@.is_element && n@.tag == t@),
{
    n.is_element && str_eq(n.tag.as_str(), t)
}

/// The trades, NAV points and cash flows of a statement's nodes, in document order.
pub fn statement_records(nodes: &[XmlNode]) -> (r: (Vec<FlexTrade>, Vec<NavPoint>, Vec<Cashflow>))
    ensures
        trades_from(trade_attrs(node_views(nodes@)), r.0@),
        nav_views(r.1@) == nav_recs(node_views(nodes@)),
        cash_views(r.2@) == cash_recs(node_views(nodes@)),
{
    proof {
        reveal_strlit("Trade");
        reveal_strlit("symbol");
        reveal_strlit("quantity");
        reveal_strlit("EquitySummaryByReportDateInBase");
        reveal_strlit("EquitySummaryInBase");
        reveal_strlit("ChangeInNAV");
        reveal_strlit("reportDate");
        reveal_strlit("total");
        reveal_strlit("endingValue");
        reveal_strlit("CashTransaction");
        reveal_strlit("type");
        reveal_strlit("Deposit");
        reveal_strlit("Withdrawal");
        reveal_strlit("dateTime");
        reveal_strlit("amount");
    }
    let ghost nv = node_views(nodes@);
    let mut trades: Vec<FlexTrade> = Vec::new();
    let mut nav: Vec<NavPoint> = Vec::new();
    let mut cash: Vec<Cashflow> = Vec::new();
    let mut i: usize = 0;
    proof {
        assert(nv.take(0) =~= Seq::<XmlNodeView>::empty());
        assert(nav_views(nav@) =~= Seq::<(Seq<char>, int)>::empty());
        assert(cash_views(cash@) =~= Seq::<(Seq<char>, int)>::empty());
    }
    while i < nodes.len()
        invariant
            i <= nodes@.len(),
            nv == node_views(nodes@),
            trades_from(trade_attrs(nv.take(i as int)), trades@),
            nav_views(nav@) == nav_recs(nv.take(i as int)),
            cash_views(cash@) == cash_recs(nv.take(i as int)),
        decreases nodes.len() - i,
    {
        let n = &nodes[i];
        let ghost pre = nv.take(i as int);
        proof {
            assert(nv.take(i + 1).drop_last() =~= pre);
            assert(nv.take(i + 1).last() == n@);
        }
        // trades
        let ghost t0 = trades@;
        if tag_is(n, "Trade") {
            let sym = attr(n, "symbol");
            let q = amount(n, "quantity");
            if sym.as_str().unicode_len() > 0 && q != 0 {
                let t = trade_from(n);
                trades.push(t);
                proof {
                    assert forall|k: int| 0 <= k < trades@.len() implies trade_of(
                        trade_attrs(nv.take(i + 1))[k],
                        #[trigger] trades@[k],
                    ) by {
                        if k < t0.len() {
                            assert(trades@[k] == t0[k]);
                        }
                    }
                }
            }
        }
        // NAV points
        let ghost v0 = nav@;
        if tag_is(n, "EquitySummaryByReportDateInBase") || tag_is(n, "EquitySummaryInBase") {
            let date = attr(n, "reportDate");
            let total = amount(n, "total");
            if !(total <= 0 || date.as_str().unicode_len() == 0) {
                let p = NavPoint { date, nav: total };
                nav.push(p);
                proof {
                    assert(nav_views(nav@) =~= nav_views(v0).push((p.date@, p.nav as int)));
                }
            }
        } else if tag_is(n, "ChangeInNAV") {
            let date = attr(n, "reportDate");
            let total = amount(n, "endingValue");
            if total > 0 && date.as_str().unicode_len() > 0 {
                let p = NavPoint { date, nav: total };
                nav.push(p);
                proof {
                    assert(nav_views(nav@) =~= nav_views(v0).push((p.date@, p.nav as int)));
                }
            }
        }
        // cash flows
        let ghost c0 = cash@;
        if tag_is(n, "CashTransaction") {
            let kind = attr(n, "type");
            if contains_str(kind.as_str(), "Deposit") || contains_str(kind.as_str(), "Withdrawal") {
                let d = attr(n, "dateTime");
                if d.as_str().unicode_len() > 0 {
                    let cf = Cashflow { date: date8(d.as_str()), amount: amount(n, "amount") };
                    cash.push(cf);
                    proof {
                        assert(cash_views(cash@) =~= cash_views(c0).push((cf.date@, cf.amount as int)));
                    }
                }
            }
        }
        i = i + 1;
    }
    proof {
        assert(nv.take(i as int) =~= nv);
    }
    (trades, nav, cash)
}

/// What a statement text yields: on a well-formed document, its trades ordered by
/// date-time, its NAV points ordered by date with repeated dates dropped (the first
/// kept), and its cash flows ordered by date — each order stable; otherwise the parser's
/// error, prefixed `XML: `.
pub open spec fn statement_ok(
    nodes: Seq<XmlNodeView>,
    r: (Seq<FlexTrade>, Seq<NavPoint>, Seq<Cashflow>),
) -> bool {
    &&& exists|t: Seq<FlexTrade>| trades_from(trade_attrs(nodes), t) && r.0 == sort_by_date(t)
    &&& exists|v: Seq<NavPoint>| nav_views(v) == nav_recs(nodes) && r.1 == dedup_dates(sort_by_date(v))
    &&& exists|c: Seq<Cashflow>| cash_views(c) == cash_recs(nodes) && r.2 == sort_by_date(c)
}

/// The statement a parsed document holds: its trades and cash flows in date order, and
/// its NAV points in date order with one point per date.
pub fn statement_from_nodes(nodes: &[XmlNode]) -> (r: (Vec<FlexTrade>, Vec<NavPoint>, Vec<Cashflow>))
    ensures
        statement_ok(node_views(nodes@), (r.0@, r.1@, r.2@)),
{
    let (t, n, c) = statement_records(nodes);
    let ghost tv = t@;
    let ghost nv = n@;
    let ghost cv = c@;
    let trades = sort_dated(t);
    let nav = dedup_dated(sort_dated(n));
    let cash = sort_dated(c);
    proof {
        assert(trades_from(trade_attrs(node_views(nodes@)), tv));
        assert(nav_views(nv) == nav_recs(node_views(nodes@)));
        assert(cash_views(cv) == cash_recs(node_views(nodes@)));
    }
    (trades, nav, cash)
}

/// Parse a Flex XML statement into trades, NAV points and cash flows.
pub fn parse_statement(xml: &str) -> (r: Result<(Vec<FlexTrade>, Vec<NavPoint>, Vec<Cashflow>), String>)
    ensures
        match xml_parse(xml@) {
            Ok(nodes) => r matches Ok(v) && statement_ok(nodes, (v.0@, v.1@, v.2@)),
            Err(m) => r matches Err(e) && e@ == "XML: "@ + m,
        },
{
    proof {
        reveal_strlit("XML: ");
    }
    match read_xml(xml) {
        Err(e) => {
            let mut m = "XML: ".to_string();
            m.append(e.as_str());
            Err(m)
        },
        Ok(nodes) => {
            let v = statement_from_nodes(nodes.as_slice());
            Ok(v)
        },
    }
}


// ── what a parsed statement promises ─────────────────────────────────────────

/// Dates never go backwards.
pub open spec fn date_sorted<T: Dated>(s: Seq<T>) -> bool {
    forall|i: int, j: int| 0 <= i < j < s.len() ==> !seq_lt(#[trigger] s[j].date_view(), #[trigger] s[i].date_view())
}

/// Dates strictly increase.
pub open spec fn dates_ascending<T: Dated>(s: Seq<T>) -> bool {
    forall|i: int, j: int| 0 <= i < j < s.len() ==> seq_lt(#[trigger] s[i].date_view(), #[trigger] s[j].date_view())
}

/// `a` is not later than `b`.
pub open spec fn not_later(a: Seq<char>, b: Seq<char>) -> bool {
    !seq_lt(b, a)
}

proof fn lemma_not_later_trans(a: Seq<char>, b: Seq<char>, c: Seq<char>)
    requires
        not_later(a, b),
        not_later(b, c),
    ensures
        not_later(a, c),
{
    crate::text::lemma_seq_lt_total(a, b);
    crate::text::lemma_seq_lt_total(b, c);
    if seq_lt(c, a) {
        if a == b {
        } else if b == c {
        } else {
            crate::text::lemma_seq_lt_transitive(a, b, c);
            crate::text::lemma_seq_lt_asymmetric(a, c);
        }
    }
}

proof fn lemma_insert_by_date<T: Dated>(sorted: Seq<T>, x: T)
    requires
        date_sorted(sorted),
    ensures
        insert_by_date(sorted, x).len() == sorted.len() + 1,
        date_sorted(insert_by_date(sorted, x)),
        forall|k: int| 0 <= k < insert_by_date(sorted, x).len() ==> #[trigger] insert_by_date(sorted, x)[k] == x
            || sorted.contains(insert_by_date(sorted, x)[k]),
    decreases sorted.len(),
{
    let r = insert_by_date(sorted, x);
    if sorted.len() == 0 {
    } else if seq_lt(x.date_view(), sorted[0].date_view()) {
        assert(r == seq![x] + sorted);
        assert forall|i: int, j: int| 0 <= i < j < r.len() implies !seq_lt(#[trigger] r[j].date_view(), #[trigger] r[i].date_view()) by {
            if i == 0 {
                assert(r[j] == sorted[j - 1]);
                if j - 1 > 0 {
                    assert(!seq_lt(sorted[j - 1].date_view(), sorted[0].date_view()));
                }
                crate::text::lemma_seq_lt_irreflexive(sorted[0].date_view());
                assert(not_later(sorted[0].date_view(), sorted[j - 1].date_view()));
                crate::text::lemma_seq_lt_asymmetric(x.date_view(), sorted[0].date_view());
                assert(not_later(x.date_view(), sorted[0].date_view()));
                lemma_not_later_trans(x.date_view(), sorted[0].date_view(), sorted[j - 1].date_view());
            } else {
                assert(r[i] == sorted[i - 1] && r[j] == sorted[j - 1]);
            }
        }
        assert forall|k: int| 0 <= k < r.len() implies #[trigger] r[k] == x || sorted.contains(r[k]) by {
            if k > 0 {
                assert(r[k] == sorted[k - 1]);
            }
        }
    } else {
        let rest = sorted.drop_first();
        assert(date_sorted(rest)) by {
            assert forall|i: int, j: int| 0 <= i < j < rest.len() implies !seq_lt(#[trigger] rest[j].date_view(), #[trigger] rest[i].date_view()) by {
                assert(rest[i] == sorted[i + 1] && rest[j] == sorted[j + 1]);
            }
        }
        lemma_insert_by_date(rest, x);
        let t = insert_by_date(rest, x);
        assert(r == seq![sorted[0]] + t);
        assert forall|k: int| 0 <= k < t.len() implies not_later(sorted[0].date_view(), #[trigger] t[k].date_view()) by {
            if t[k] == x {
            } else {
                assert(rest.contains(t[k]));
                let m = choose|m: int| 0 <= m < rest.len() && rest[m] == t[k];
                assert(rest[m] == sorted[m + 1]);
            }
        }
        assert forall|i: int, j: int| 0 <= i < j < r.len() implies !seq_lt(#[trigger] r[j].date_view(), #[trigger] r[i].date_view()) by {
            if i == 0 {
                assert(r[j] == t[j - 1]);
            } else {
                assert(r[i] == t[i - 1] && r[j] == t[j - 1]);
            }
        }
        assert forall|k: int| 0 <= k < r.len() implies #[trigger] r[k] == x || sorted.contains(r[k]) by {
            if k == 0 {
                assert(sorted.contains(sorted[0]));
            } else {
                assert(r[k] == t[k - 1]);
                if t[k - 1] != x {
                    assert(rest.contains(t[k - 1]));
                    let m = choose|m: int| 0 <= m < rest.len() && rest[m] == t[k - 1];
                    assert(sorted[m + 1] == t[k - 1]);
                }
            }
        }
    }
}

/// Ordering by date keeps the records (each one it returns was given) and never puts a
/// later date before an earlier one.
pub proof fn law_sort_by_date<T: Dated>(s: Seq<T>)
    ensures
        sort_by_date(s).len() == s.len(),
        date_sorted(sort_by_date(s)),
        forall|k: int| 0 <= k < sort_by_date(s).len() ==> s.contains(#[trigger] sort_by_date(s)[k]),
    decreases s.len(),
{
    if s.len() > 0 {
        let pre = s.drop_last();
        law_sort_by_date(pre);
        lemma_insert_by_date(sort_by_date(pre), s.last());
        let r = sort_by_date(s);
        assert forall|k: int| 0 <= k < r.len() implies s.contains(#[trigger] r[k]) by {
            if r[k] == s.last() {
                assert(s[s.len() - 1] == s.last());
            } else {
                let q = sort_by_date(pre);
                assert(q.contains(r[k]));
                let m = choose|m: int| 0 <= m < q.len() && q[m] == r[k];
                assert(pre.contains(q[m]));
                let m2 = choose|m2: int| 0 <= m2 < pre.len() && pre[m2] == q[m];
                assert(s[m2] == r[k]);
            }
        }
    }
}

/// Dropping same-dated records from a date-ordered list leaves dates that strictly
/// increase, and keeps only records it was given.
pub proof fn law_dedup_dates_ascending<T: Dated>(s: Seq<T>)
    requires
        date_sorted(s),
    ensures
        dates_ascending(dedup_dates(s)),
        forall|k: int| 0 <= k < dedup_dates(s).len() ==> s.contains(#[trigger] dedup_dates(s)[k]),
    decreases s.len(),
{
    if s.len() > 0 {
        let pre = s.drop_last();
        let x = s.last();
        let n = s.len() - 1;
        assert(date_sorted(pre)) by {
            assert forall|i: int, j: int| 0 <= i < j < pre.len() implies !seq_lt(#[trigger] pre[j].date_view(), #[trigger] pre[i].date_view()) by {
                assert(pre[i] == s[i] && pre[j] == s[j]);
            }
        }
        law_dedup_dates_ascending(pre);
        let kept = dedup_dates(pre);
        assert forall|k: int| 0 <= k < kept.len() implies pre.contains(#[trigger] kept[k]) by {}
        assert forall|k: int| 0 <= k < kept.len() implies not_later(#[trigger] kept[k].date_view(), x.date_view()) by {
            let m = choose|m: int| 0 <= m < pre.len() && pre[m] == kept[k];
            assert(s[m] == kept[k] && s[n] == x);
        }
        let r = dedup_dates(s);
        if kept.len() > 0 && kept.last().date_view() == x.date_view() {
            assert(r == kept);
            assert forall|k: int| 0 <= k < r.len() implies s.contains(#[trigger] r[k]) by {
                let m = choose|m: int| 0 <= m < pre.len() && pre[m] == kept[k];
                assert(s[m] == kept[k]);
            }
        } else {
            assert(r == kept.push(x));
            if kept.len() > 0 {
                let l = kept.len() - 1;
                assert(not_later(kept[l].date_view(), x.date_view()));
                crate::text::lemma_seq_lt_total(kept[l].date_view(), x.date_view());
                assert(seq_lt(kept[l].date_view(), x.date_view()));
            }
            assert forall|i: int, j: int| 0 <= i < j < r.len() implies seq_lt(#[trigger] r[i].date_view(), #[trigger] r[j].date_view()) by {
                if j < kept.len() {
                    assert(r[i] == kept[i] && r[j] == kept[j]);
                } else {
                    let l = kept.len() - 1;
                    assert(r[i] == kept[i]);
                    if i < l {
                        assert(seq_lt(kept[i].date_view(), kept[l].date_view()));
                        crate::text::lemma_seq_lt_transitive(kept[i].date_view(), kept[l].date_view(), x.date_view());
                    }
                }
            }
            assert forall|k: int| 0 <= k < r.len() implies s.contains(#[trigger] r[k]) by {
                if k < kept.len() {
                    let m = choose|m: int| 0 <= m < pre.len() && pre[m] == kept[k];
                    assert(s[m] == kept[k]);
                } else {
                    assert(s[n] == x);
                }
            }
        }
    }
}

/// A parsed statement's trades are in date order and each names a symbol and a non-zero
/// quantity; its NAV points have strictly increasing dates; its cash flows are in date
/// order.
pub proof fn law_statement_ordered(nodes: Seq<XmlNodeView>, r: (Seq<FlexTrade>, Seq<NavPoint>, Seq<Cashflow>))
    requires
        statement_ok(nodes, r),
    ensures
        date_sorted(r.0),
        forall|k: int| 0 <= k < r.0.len() ==> (#[trigger] r.0[k]).symbol@.len() > 0 && r.0[k].quantity != 0,
        dates_ascending(r.1),
        date_sorted(r.2),
{
    let t = choose|t: Seq<FlexTrade>| trades_from(trade_attrs(nodes), t) && r.0 == sort_by_date(t);
    let v = choose|v: Seq<NavPoint>| nav_views(v) == nav_recs(nodes) && r.1 == dedup_dates(sort_by_date(v));
    let c = choose|c: Seq<Cashflow>| cash_views(c) == cash_recs(nodes) && r.2 == sort_by_date(c);
    law_sort_by_date(t);
    law_sort_by_date(v);
    law_sort_by_date(c);
    law_dedup_dates_ascending(sort_by_date(v));
    lemma_trade_attrs_ok(nodes);
    assert forall|k: int| 0 <= k < r.0.len() implies (#[trigger] r.0[k]).symbol@.len() > 0 && r.0[k].quantity != 0 by {
        assert(t.contains(r.0[k]));
        let m = choose|m: int| 0 <= m < t.len() && t[m] == r.0[k];
        assert(trade_of(trade_attrs(nodes)[m], t[m]));
    }
}

proof fn lemma_trade_attrs_ok(nodes: Seq<XmlNodeView>)
    ensures
        forall|k: int| 0 <= k < trade_attrs(nodes).len() ==> attr_spec(#[trigger] trade_attrs(nodes)[k], "symbol"@).len() > 0
            && amount_spec(trade_attrs(nodes)[k], "quantity"@) != 0,
    decreases nodes.len(),
{
    if nodes.len() > 0 {
        let rest = trade_attrs(nodes.drop_last());
        lemma_trade_attrs_ok(nodes.drop_last());
        let r = trade_attrs(nodes);
        assert forall|k: int| 0 <= k < r.len() implies attr_spec(#[trigger] r[k], "symbol"@).len() > 0
            && amount_spec(r[k], "quantity"@) != 0 by {
            if k < rest.len() {
                assert(r[k] == rest[k]);
            }
        }
    }
}

// ── every NAV element is read ────────────────────────────────────────────────

/// The NAV value an element reports: the ending value of a `ChangeInNAV`, or the total of
/// an `EquitySummaryByReportDateInBase` / `EquitySummaryInBase`.
pub open spec fn reported_nav(n: XmlNodeView) -> Option<int> {
    if !n.is_element {
        None
    } else if n.tag == "ChangeInNAV"@ {
        Some(amount_spec(n.attrs, "endingValue"@))
    } else if n.tag == "EquitySummaryByReportDateInBase"@ || n.tag == "EquitySummaryInBase"@ {
        Some(amount_spec(n.attrs, "total"@))
    } else {
        None
    }
}

proof fn lemma_nav_recs_has(nodes: Seq<XmlNodeView>, k: int)
    requires
        0 <= k < nodes.len(),
        reported_nav(nodes[k]) matches Some(v) && v > 0,
        attr_spec(nodes[k].attrs, "reportDate"@).len() > 0,
    ensures
        nav_recs(nodes).contains((attr_spec(nodes[k].attrs, "reportDate"@), reported_nav(nodes[k])->0)),
    decreases nodes.len(),
{
    reveal_strlit("ChangeInNAV");
    reveal_strlit("EquitySummaryByReportDateInBase");
    reveal_strlit("EquitySummaryInBase");
    let rest = nav_recs(nodes.drop_last());
    let x = (attr_spec(nodes[k].attrs, "reportDate"@), reported_nav(nodes[k])->0);
    if k < nodes.len() - 1 {
        assert(nodes.drop_last()[k] == nodes[k]);
        lemma_nav_recs_has(nodes.drop_last(), k);
        let j = choose|j: int| 0 <= j < rest.len() && rest[j] == x;
        let r = nav_recs(nodes);
        assert(r == rest || r == rest.push(r.last()));
        assert(r[j] == x);
    } else {
        assert(nodes.last() == nodes[k]);
        assert("ChangeInNAV"@ != "EquitySummaryByReportDateInBase"@) by {
            assert("ChangeInNAV"@.len() != "EquitySummaryByReportDateInBase"@.len());
        }
        assert("ChangeInNAV"@ != "EquitySummaryInBase"@) by {
            assert("ChangeInNAV"@.len() != "EquitySummaryInBase"@.len());
        }
        let r = nav_recs(nodes);
        assert(r == rest.push(x));
        assert(r[rest.len() as int] == x);
    }
}

proof fn lemma_insert_keeps<T: Dated>(sorted: Seq<T>, x: T)
    ensures
        insert_by_date(sorted, x).contains(x),
        forall|k: int| 0 <= k < sorted.len() ==> insert_by_date(sorted, x).contains(#[trigger] sorted[k]),
    decreases sorted.len(),
{
    let r = insert_by_date(sorted, x);
    if sorted.len() == 0 {
        assert(r[0] == x);
    } else if seq_lt(x.date_view(), sorted[0].date_view()) {
        assert(r[0] == x);
        assert forall|k: int| 0 <= k < sorted.len() implies r.contains(#[trigger] sorted[k]) by {
            assert(r[k + 1] == sorted[k]);
        }
    } else {
        let rest = sorted.drop_first();
        lemma_insert_keeps(rest, x);
        let t = insert_by_date(rest, x);
        assert(r == seq![sorted[0]] + t);
        let j = choose|j: int| 0 <= j < t.len() && t[j] == x;
        assert(r[j + 1] == x);
        assert forall|k: int| 0 <= k < sorted.len() implies r.contains(#[trigger] sorted[k]) by {
            if k == 0 {
                assert(r[0] == sorted[0]);
            } else {
                assert(rest[k - 1] == sorted[k]);
                let m = choose|m: int| 0 <= m < t.len() && t[m] == rest[k - 1];
                assert(r[m + 1] == sorted[k]);
            }
        }
    }
}

proof fn lemma_sort_keeps<T: Dated>(s: Seq<T>)
    ensures
        forall|k: int| 0 <= k < s.len() ==> sort_by_date(s).contains(#[trigger] s[k]),
    decreases s.len(),
{
    if s.len() > 0 {
        let pre = s.drop_last();
        lemma_sort_keeps(pre);
        let q = sort_by_date(pre);
        lemma_insert_keeps(q, s.last());
        let r = sort_by_date(s);
        assert forall|k: int| 0 <= k < s.len() implies r.contains(#[trigger] s[k]) by {
            if k < pre.len() {
                assert(pre[k] == s[k]);
                let m = choose|m: int| 0 <= m < q.len() && q[m] == pre[k];
                assert(r.contains(q[m]));
            } else {
                assert(s[k] == s.last());
            }
        }
    }
}

proof fn lemma_dedup_keeps_dates<T: Dated>(s: Seq<T>)
    ensures
        forall|k: int| 0 <= k < s.len() ==> exists|j: int| 0 <= j < dedup_dates(s).len()
            && #[trigger] dedup_dates(s)[j].date_view() == (#[trigger] s[k]).date_view(),
    decreases s.len(),
{
    if s.len() > 0 {
        let pre = s.drop_last();
        lemma_dedup_keeps_dates(pre);
        let kept = dedup_dates(pre);
        let r = dedup_dates(s);
        let same = kept.len() > 0 && kept.last().date_view() == s.last().date_view();
        if same {
            assert(r == kept);
        } else {
            assert(r == kept.push(s.last()));
        }
        assert forall|k: int| 0 <= k < s.len() implies exists|j: int| 0 <= j < r.len()
            && #[trigger] r[j].date_view() == (#[trigger] s[k]).date_view() by {
            if k < pre.len() {
                assert(pre[k] == s[k]);
                let j = choose|j: int| 0 <= j < kept.len() && #[trigger] kept[j].date_view() == (#[trigger] pre[k]).date_view();
                assert(r[j] == kept[j]);
                assert(0 <= j < r.len() && r[j].date_view() == s[k].date_view());
            } else if same {
                let j = kept.len() - 1;
                assert(r[j] == kept.last());
                assert(s[k] == s.last());
                assert(0 <= j < r.len() && r[j].date_view() == s[k].date_view());
            } else {
                let j = kept.len() as int;
                assert(r[j] == s.last());
                assert(s[k] == s.last());
                assert(0 <= j < r.len() && r[j].date_view() == s[k].date_view());
            }
        }
    }
}

/// Every NAV element of a statement is read: an element reporting a positive NAV
/// (`ChangeInNAV` ending value, or an equity-summary total) with a report date adds that
/// point to the NAV records, and the parsed statement has a NAV point of that date.
pub proof fn law_nav_elements_are_read(nodes: Seq<XmlNodeView>, r: (Seq<FlexTrade>, Seq<NavPoint>, Seq<Cashflow>), k: int)
    requires
        statement_ok(nodes, r),
        0 <= k < nodes.len(),
        reported_nav(nodes[k]) matches Some(v) && v > 0,
        attr_spec(nodes[k].attrs, "reportDate"@).len() > 0,
    ensures
        nav_recs(nodes).contains((attr_spec(nodes[k].attrs, "reportDate"@), reported_nav(nodes[k])->0)),
        exists|j: int| 0 <= j < r.1.len() && #[trigger] r.1[j].date@ == attr_spec(nodes[k].attrs, "reportDate"@),
{
    lemma_nav_recs_has(nodes, k);
    let date = attr_spec(nodes[k].attrs, "reportDate"@);
    let x = (date, reported_nav(nodes[k])->0);
    let v = choose|v: Seq<NavPoint>| nav_views(v) == nav_recs(nodes) && r.1 == dedup_dates(sort_by_date(v));
    let i = choose|i: int| 0 <= i < nav_recs(nodes).len() && nav_recs(nodes)[i] == x;
    assert(nav_views(v)[i] == x);
    assert(v[i].date@ == date);
    lemma_sort_keeps(v);
    let srt = sort_by_date(v);
    let m = choose|m: int| 0 <= m < srt.len() && srt[m] == v[i];
    lemma_dedup_keeps_dates(srt);
    let j = choose|j: int| 0 <= j < dedup_dates(srt).len() && #[trigger] dedup_dates(srt)[j].date_view() == srt[m].date_view();
    assert(r.1[j].date@ == date);
}

/// A deposit or withdrawal: a `CashTransaction` whose type mentions `Deposit` or
/// `Withdrawal`, with a date-time.
pub open spec fn is_transfer(n: XmlNodeView) -> bool {
    let kind = attr_spec(n.attrs, "type"@);
    &&& n.is_element
    &&& n.tag == "CashTransaction"@
    &&& (contains_seq(kind, "Deposit"@) || contains_seq(kind, "Withdrawal"@))
    &&& attr_spec(n.attrs, "dateTime"@).len() > 0
}

proof fn lemma_cash_recs_has(nodes: Seq<XmlNodeView>, k: int)
    requires
        0 <= k < nodes.len(),
        is_transfer(nodes[k]),
    ensures
        cash_recs(nodes).contains(
            (first8(attr_spec(nodes[k].attrs, "dateTime"@)), amount_spec(nodes[k].attrs, "amount"@)),
        ),
    decreases nodes.len(),
{
    let rest = cash_recs(nodes.drop_last());
    let x = (first8(attr_spec(nodes[k].attrs, "dateTime"@)), amount_spec(nodes[k].attrs, "amount"@));
    let r = cash_recs(nodes);
    if k < nodes.len() - 1 {
        assert(nodes.drop_last()[k] == nodes[k]);
        lemma_cash_recs_has(nodes.drop_last(), k);
        let j = choose|j: int| 0 <= j < rest.len() && rest[j] == x;
        assert(r == rest || r == rest.push(r.last()));
        assert(r[j] == x);
    } else {
        assert(nodes.last() == nodes[k]);
        assert(r == rest.push(x));
        assert(r[rest.len() as int] == x);
    }
}

/// Every deposit and withdrawal of a statement is read: the parsed cash flows hold it,
/// dated by the first eight bytes of its date-time, with its amount.
pub proof fn law_transfers_are_read(nodes: Seq<XmlNodeView>, r: (Seq<FlexTrade>, Seq<NavPoint>, Seq<Cashflow>), k: int)
    requires
        statement_ok(nodes, r),
        0 <= k < nodes.len(),
        is_transfer(nodes[k]),
    ensures
        exists|j: int| 0 <= j < r.2.len() && #[trigger] r.2[j].date@ == first8(attr_spec(nodes[k].attrs, "dateTime"@))
            && r.2[j].amount == amount_spec(nodes[k].attrs, "amount"@),
{
    lemma_cash_recs_has(nodes, k);
    let x = (first8(attr_spec(nodes[k].attrs, "dateTime"@)), amount_spec(nodes[k].attrs, "amount"@));
    let c = choose|c: Seq<Cashflow>| cash_views(c) == cash_recs(nodes) && r.2 == sort_by_date(c);
    let i = choose|i: int| 0 <= i < cash_recs(nodes).len() && cash_recs(nodes)[i] == x;
    assert(cash_views(c)[i] == x);
    lemma_sort_keeps(c);
    let j = choose|j: int| 0 <= j < r.2.len() && r.2[j] == c[i];
    assert(r.2[j].date@ == x.0 && r.2[j].amount == x.1);
}

proof fn lemma_trade_attrs_has(nodes: Seq<XmlNodeView>, k: int)
    requires
        0 <= k < nodes.len(),
        nodes[k].is_element,
        nodes[k].tag == "Trade"@,
        attr_spec(nodes[k].attrs, "symbol"@).len() > 0,
        amount_spec(nodes[k].attrs, "quantity"@) != 0,
    ensures
        trade_attrs(nodes).contains(nodes[k].attrs),
    decreases nodes.len(),
{
    let rest = trade_attrs(nodes.drop_last());
    let r = trade_attrs(nodes);
    if k < nodes.len() - 1 {
        assert(nodes.drop_last()[k] == nodes[k]);
        lemma_trade_attrs_has(nodes.drop_last(), k);
        let j = choose|j: int| 0 <= j < rest.len() && rest[j] == nodes[k].attrs;
        assert(r == rest || r == rest.push(r.last()));
        assert(r[j] == nodes[k].attrs);
    } else {
        assert(nodes.last() == nodes[k]);
        assert(r == rest.push(nodes[k].attrs));
        assert(r[rest.len() as int] == nodes[k].attrs);
    }
}

/// Every execution of a statement is read: a `Trade` element naming a symbol with a
/// non-zero quantity gives a parsed trade with its date-time, symbol, side, quantity and
/// price.
pub proof fn law_trades_are_read(nodes: Seq<XmlNodeView>, r: (Seq<FlexTrade>, Seq<NavPoint>, Seq<Cashflow>), k: int)
    requires
        statement_ok(nodes, r),
        0 <= k < nodes.len(),
        nodes[k].is_element,
        nodes[k].tag == "Trade"@,
        attr_spec(nodes[k].attrs, "symbol"@).len() > 0,
        amount_spec(nodes[k].attrs, "quantity"@) != 0,
    ensures
        exists|j: int| 0 <= j < r.0.len() && trade_of(nodes[k].attrs, #[trigger] r.0[j]),
        exists|j: int| 0 <= j < r.0.len() && {
            let a = nodes[k].attrs;
            &&& (#[trigger] r.0[j]).symbol@ == attr_spec(a, "symbol"@)
            &&& r.0[j].date_time@ == attr_spec(a, "dateTime"@)
            &&& r.0[j].side@ == attr_spec(a, "buySell"@)
            &&& r.0[j].quantity == amount_spec(a, "quantity"@)
            &&& r.0[j].price == amount_spec(a, "tradePrice"@)
        },
{
    lemma_trade_attrs_has(nodes, k);
    let t = choose|t: Seq<FlexTrade>| trades_from(trade_attrs(nodes), t) && r.0 == sort_by_date(t);
    let i = choose|i: int| 0 <= i < trade_attrs(nodes).len() && trade_attrs(nodes)[i] == nodes[k].attrs;
    assert(trade_of(trade_attrs(nodes)[i], t[i]));
    lemma_sort_keeps(t);
    let j = choose|j: int| 0 <= j < r.0.len() && r.0[j] == t[i];
    assert(trade_of(nodes[k].attrs, r.0[j]));
}
} // verus!
