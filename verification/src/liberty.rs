//! The structure of a Liberty library: its cells, their pins (also those of
//! bundles and buses) and the timing arcs and lookup tables of each pin.
//! Numbers are kept as the text that the library writes for them.
use vstd::prelude::*;
use vstd::slice::slice_subrange;
use vstd::string::StringSliceAdditionalSpecFns;
use crate::scan::Group;
use crate::scan::groups_from;
use crate::scan::groups_lie_in_order;
use crate::scan::scan_groups;
use crate::scan::attr_from;
use crate::scan::attr_value_of;
use crate::scan::group_open_from;
use crate::scan::group_opens;
use crate::scan::stripped;
use crate::scan::strip_comments;
use crate::scan::prepend;
use crate::text::eq_ignore_case;
use crate::text::ascii_lower;
use crate::text::ascii_lower_chars;
use crate::text::chars_of;
use crate::text::chars_eq_ignore_case;
use crate::text::string_from_chars;
use crate::scan::true_text;
use crate::table::texts;
use crate::table::rows_view;
use crate::table::index_entries;
use crate::table::value_rows;
use crate::table::index_tokens;
use crate::table::table_value_tokens;
use crate::table::trimmed_pieces;
use crate::table::index_list_reads_quoted_text;
use crate::table::QUOTE;
use crate::scan::matches_at;
use crate::scan::LPAREN;
use crate::text::lossy_utf8;
use crate::scan::lemma_encode_nonempty;

verus! {

// ---------------------------------------------------------------------------
// Sequences of partial results
// ---------------------------------------------------------------------------

/// `Some` of all the values when every entry is `Some`, else `None`.
pub open spec fn all_some<T>(xs: Seq<Option<T>>) -> Option<Seq<T>>
    decreases xs.len(),
{
    if xs.len() == 0 {
        Some(Seq::empty())
    } else {
        match xs[0] {
            None => None,
            Some(x) => prepend(seq![x], all_some(xs.drop_first())),
        }
    }
}

/// The concatenation of a list of lists.
pub open spec fn concat_all<T>(xs: Seq<Seq<T>>) -> Seq<T>
    decreases xs.len(),
{
    if xs.len() == 0 {
        Seq::empty()
    } else {
        xs[0] + concat_all(xs.drop_first())
    }
}

proof fn lemma_all_some_step<T>(xs: Seq<Option<T>>, acc: Seq<T>, i: int)
    requires
        0 <= i < xs.len(),
    ensures
        xs[i] is None ==> prepend(acc, all_some(xs.skip(i))) is None,
        xs[i] matches Some(x) ==> prepend(acc, all_some(xs.skip(i))) == prepend(
            acc.push(x),
            all_some(xs.skip(i + 1)),
        ),
{
    assert(xs.skip(i).drop_first() =~= xs.skip(i + 1));
    assert(xs.skip(i)[0] == xs[i]);
    match xs[i] {
        None => {},
        Some(x) => {
            match all_some(xs.skip(i + 1)) {
                None => {},
                Some(r) => {
                    assert(acc + (seq![x] + r) =~= acc.push(x) + r);
                },
            }
        },
    }
}

proof fn lemma_all_some_start<T>(xs: Seq<Option<T>>)
    ensures
        all_some(xs) == prepend(Seq::<T>::empty(), all_some(xs.skip(0))),
{
    assert(xs.skip(0) =~= xs);
    match all_some(xs) {
        None => {},
        Some(r) => {
            assert(Seq::<T>::empty() + r =~= r);
        },
    }
}

proof fn lemma_all_some_end<T>(xs: Seq<Option<T>>, acc: Seq<T>)
    ensures
        prepend(acc, all_some(xs.skip(xs.len() as int))) == Some(acc),
{
    assert(xs.skip(xs.len() as int) =~= Seq::<Option<T>>::empty());
    assert(acc + Seq::<T>::empty() =~= acc);
}

/// The body of a group in `data`.
pub open spec fn body_of(data: Seq<u8>, g: (Seq<char>, int, int)) -> Seq<u8> {
    data.subrange(g.1, g.2)
}

// ---------------------------------------------------------------------------
// Lookup tables
// ---------------------------------------------------------------------------

/// A lookup table: the entries of its two index lists and its rows of
/// values, as text.
#[derive(Clone, Debug)]
pub struct TableText {
    pub index_1: Vec<String>,
    pub index_2: Vec<String>,
    pub values: Vec<Vec<String>>,
}

pub struct TableModel {
    pub index_1: Seq<Seq<char>>,
    pub index_2: Seq<Seq<char>>,
    pub values: Seq<Seq<Seq<char>>>,
}

impl View for TableText {
    type V = TableModel;

    open spec fn view(&self) -> TableModel {
        TableModel {
            index_1: texts(self.index_1@),
            index_2: texts(self.index_2@),
            values: rows_view(self.values@),
        }
    }
}

/// The table whose body is `body`.
pub open spec fn table_model(body: Seq<u8>) -> Option<TableModel> {
    match value_rows(body) {
        None => None,
        Some(rows) => Some(
            TableModel {
                index_1: index_entries(body, "index_1".spec_bytes()),
                index_2: index_entries(body, "index_2".spec_bytes()),
                values: rows,
            },
        ),
    }
}

/// The tables of a list of groups in `body`.
pub open spec fn table_models(body: Seq<u8>, gs: Seq<(Seq<char>, int, int)>) -> Seq<
    Option<TableModel>,
> {
    gs.map_values(|g: (Seq<char>, int, int)| table_model(body_of(body, g)))
}

/// The tables of kind `kind` (such as `cell_rise`) in `body`.
pub open spec fn tables_in(body: Seq<u8>, kind: Seq<u8>) -> Option<Seq<TableModel>> {
    match groups_from(body, kind, 0) {
        None => None,
        Some(gs) => all_some(table_models(body, gs)),
    }
}

pub open spec fn tables_view(v: Seq<TableText>) -> Seq<TableModel> {
    v.map_values(|t: TableText| t@)
}

fn parse_table(body: &[u8]) -> (r: Option<TableText>)
    ensures
        r matches Some(t) ==> table_model(body@) == Some(t@),
        r is None ==> table_model(body@) is None,
{
    proof {
        reveal_strlit("index_1");
        reveal_strlit("index_2");
    }
    let values = match table_value_tokens(body) {
        None => {
            return None;
        },
        Some(v) => v,
    };
    let index_1 = index_tokens(body, "index_1");
    let index_2 = index_tokens(body, "index_2");
    Some(TableText { index_1, index_2, values })
}

fn parse_tables(body: &[u8], kind: &str) -> (r: Option<Vec<TableText>>)
    ensures
        r matches Some(v) ==> tables_in(body@, kind.spec_bytes()) == Some(tables_view(v@)),
        r is None ==> tables_in(body@, kind.spec_bytes()) is None,
{
    let groups = match scan_groups(body, kind.as_bytes()) {
        None => {
            return None;
        },
        Some(g) => g,
    };
    let ghost gs = groups@.map_values(|g: Group| g@);
    let ghost xs = table_models(body@, gs);
    proof {
        groups_lie_in_order(body@, kind.spec_bytes(), 0);
        lemma_all_some_start(xs);
    }
    let mut out: Vec<TableText> = Vec::new();
    let mut i: usize = 0;
    while i < groups.len()
        invariant
            i <= groups@.len(),
            gs == groups@.map_values(|g: Group| g@),
            xs == table_models(body@, gs),
            xs.len() == groups@.len(),
            groups_from(body@, kind.spec_bytes(), 0) == Some(gs),
            forall|k: int| 0 <= k < gs.len() ==> 0 <= (#[trigger] gs[k]).1 <= gs[k].2 < body@.len(),
            all_some(xs) == prepend(tables_view(out@), all_some(xs.skip(i as int))),
        decreases groups@.len() - i,
    {
        let g = &groups[i];
        assert(gs[i as int] == g@);
        let sub = slice_subrange(body, g.start, g.end);
        proof {
            lemma_all_some_step(xs, tables_view(out@), i as int);
        }
        match parse_table(sub) {
            None => {
                return None;
            },
            Some(t) => {
                let ghost before = tables_view(out@);
                out.push(t);
                assert(tables_view(out@) =~= before.push(t@));
            },
        }
        i = i + 1;
    }
    proof {
        lemma_all_some_end(xs, tables_view(out@));
    }
    Some(out)
}

// ---------------------------------------------------------------------------
// Timing arcs
// ---------------------------------------------------------------------------

/// A timing arc of a pin: the pin it relates to, its timing sense, and its
/// delay and transition tables. The transition tables are `None` when
/// scanning for them cannot complete; they are only consulted when the delay
/// tables give no delay.
#[derive(Clone, Debug)]
pub struct TimingText {
    pub related_pin: String,
    pub timing_sense: String,
    pub cell_rise: Vec<TableText>,
    pub cell_fall: Vec<TableText>,
    pub rise_transition: Option<Vec<TableText>>,
    pub fall_transition: Option<Vec<TableText>>,
}

pub struct TimingModel {
    pub related_pin: Seq<char>,
    pub timing_sense: Seq<char>,
    pub cell_rise: Seq<TableModel>,
    pub cell_fall: Seq<TableModel>,
    pub rise_transition: Option<Seq<TableModel>>,
    pub fall_transition: Option<Seq<TableModel>>,
}

pub open spec fn opt_tables_view(v: Option<Vec<TableText>>) -> Option<Seq<TableModel>> {
    match v {
        None => None,
        Some(t) => Some(tables_view(t@)),
    }
}

impl View for TimingText {
    type V = TimingModel;

    open spec fn view(&self) -> TimingModel {
        TimingModel {
            related_pin: self.related_pin@,
            timing_sense: self.timing_sense@,
            cell_rise: tables_view(self.cell_rise@),
            cell_fall: tables_view(self.cell_fall@),
            rise_transition: opt_tables_view(self.rise_transition),
            fall_transition: opt_tables_view(self.fall_transition),
        }
    }
}

/// The timing arc whose group body is `body`.
pub open spec fn timing_model(body: Seq<u8>) -> Option<TimingModel> {
    match (tables_in(body, "cell_rise".spec_bytes()), tables_in(body, "cell_fall".spec_bytes())) {
        (Some(rise), Some(fall)) => Some(
            TimingModel {
                related_pin: attr_from(body, "related_pin".spec_bytes(), 0),
                timing_sense: attr_from(body, "timing_sense".spec_bytes(), 0),
                cell_rise: rise,
                cell_fall: fall,
                rise_transition: tables_in(body, "rise_transition".spec_bytes()),
                fall_transition: tables_in(body, "fall_transition".spec_bytes()),
            },
        ),
        _ => None,
    }
}

fn parse_timing(body: &[u8]) -> (r: Option<TimingText>)
    ensures
        r matches Some(t) ==> timing_model(body@) == Some(t@),
        r is None ==> timing_model(body@) is None,
{
    let cell_rise = match parse_tables(body, "cell_rise") {
        None => {
            return None;
        },
        Some(v) => v,
    };
    let cell_fall = match parse_tables(body, "cell_fall") {
        None => {
            return None;
        },
        Some(v) => v,
    };
    let rise_transition = parse_tables(body, "rise_transition");
    let fall_transition = parse_tables(body, "fall_transition");
    let related_pin = attr_value_of(body, "related_pin".as_bytes());
    let timing_sense = attr_value_of(body, "timing_sense".as_bytes());
    let t = TimingText {
        related_pin,
        timing_sense,
        cell_rise,
        cell_fall,
        rise_transition,
        fall_transition,
    };
    assert(opt_tables_view(t.rise_transition) == tables_in(
        body@,
        "rise_transition".spec_bytes(),
    ));
    assert(opt_tables_view(t.fall_transition) == tables_in(
        body@,
        "fall_transition".spec_bytes(),
    ));
    Some(t)
}

// ---------------------------------------------------------------------------
// Pins
// ---------------------------------------------------------------------------

/// A pin: its name and attributes as text (the direction lower-cased), its
/// timing arcs, and the capacitance text of the bundle it belongs to, if any.
#[derive(Clone, Debug)]
pub struct PinText {
    pub name: String,
    pub direction: String,
    pub function: String,
    pub capacitance: String,
    pub rise_capacitance: String,
    pub fall_capacitance: String,
    pub max_capacitance: String,
    pub three_state: String,
    pub timing: Vec<TimingText>,
    pub group_capacitance: Option<String>,
}

pub struct PinModel {
    pub name: Seq<char>,
    pub direction: Seq<char>,
    pub function: Seq<char>,
    pub capacitance: Seq<char>,
    pub rise_capacitance: Seq<char>,
    pub fall_capacitance: Seq<char>,
    pub max_capacitance: Seq<char>,
    pub three_state: Seq<char>,
    pub timing: Seq<TimingModel>,
    pub group_capacitance: Option<Seq<char>>,
}

pub open spec fn opt_text(v: Option<String>) -> Option<Seq<char>> {
    match v {
        None => None,
        Some(s) => Some(s@),
    }
}

pub open spec fn timings_view(v: Seq<TimingText>) -> Seq<TimingModel> {
    v.map_values(|t: TimingText| t@)
}

impl View for PinText {
    type V = PinModel;

    open spec fn view(&self) -> PinModel {
        PinModel {
            name: self.name@,
            direction: self.direction@,
            function: self.function@,
            capacitance: self.capacitance@,
            rise_capacitance: self.rise_capacitance@,
            fall_capacitance: self.fall_capacitance@,
            max_capacitance: self.max_capacitance@,
            three_state: self.three_state@,
            timing: timings_view(self.timing@),
            group_capacitance: opt_text(self.group_capacitance),
        }
    }
}

/// The timing arcs of a list of groups in `body`.
pub open spec fn timing_models(body: Seq<u8>, gs: Seq<(Seq<char>, int, int)>) -> Seq<
    Option<TimingModel>,
> {
    gs.map_values(|g: (Seq<char>, int, int)| timing_model(body_of(body, g)))
}

/// The pin named `name` whose group body is `body`.
pub open spec fn pin_model(body: Seq<u8>, name: Seq<char>) -> Option<PinModel> {
    match groups_from(body, "timing".spec_bytes(), 0) {
        None => None,
        Some(gs) => match all_some(timing_models(body, gs)) {
            None => None,
            Some(ts) => Some(
                PinModel {
                    name,
                    direction: ascii_lower(attr_from(body, "direction".spec_bytes(), 0)),
                    function: attr_from(body, "function".spec_bytes(), 0),
                    capacitance: attr_from(body, "capacitance".spec_bytes(), 0),
                    rise_capacitance: attr_from(body, "rise_capacitance".spec_bytes(), 0),
                    fall_capacitance: attr_from(body, "fall_capacitance".spec_bytes(), 0),
                    max_capacitance: attr_from(body, "max_capacitance".spec_bytes(), 0),
                    three_state: attr_from(body, "three_state".spec_bytes(), 0),
                    timing: ts,
                    group_capacitance: None,
                },
            ),
        },
    }
}

fn parse_pin(body: &[u8], name: String) -> (r: Option<PinText>)
    ensures
        r matches Some(p) ==> pin_model(body@, name@) == Some(p@),
        r is None ==> pin_model(body@, name@) is None,
{
    let groups = match scan_groups(body, "timing".as_bytes()) {
        None => {
            return None;
        },
        Some(g) => g,
    };
    let ghost gs = groups@.map_values(|g: Group| g@);
    let ghost xs = timing_models(body@, gs);
    proof {
        groups_lie_in_order(body@, "timing".spec_bytes(), 0);
        lemma_all_some_start(xs);
    }
    let mut timing: Vec<TimingText> = Vec::new();
    let mut i: usize = 0;
    while i < groups.len()
        invariant
            i <= groups@.len(),
            gs == groups@.map_values(|g: Group| g@),
            xs == timing_models(body@, gs),
            xs.len() == groups@.len(),
            groups_from(body@, "timing".spec_bytes(), 0) == Some(gs),
            forall|k: int| 0 <= k < gs.len() ==> 0 <= (#[trigger] gs[k]).1 <= gs[k].2 < body@.len(),
            all_some(xs) == prepend(timings_view(timing@), all_some(xs.skip(i as int))),
        decreases groups@.len() - i,
    {
        let g = &groups[i];
        assert(gs[i as int] == g@);
        let sub = slice_subrange(body, g.start, g.end);
        proof {
            lemma_all_some_step(xs, timings_view(timing@), i as int);
        }
        match parse_timing(sub) {
            None => {
                return None;
            },
            Some(t) => {
                let ghost before = timings_view(timing@);
                timing.push(t);
                assert(timings_view(timing@) =~= before.push(t@));
            },
        }
        i = i + 1;
    }
    proof {
        lemma_all_some_end(xs, timings_view(timing@));
    }
    let raw_direction = attr_value_of(body, "direction".as_bytes());
    let direction_chars = ascii_lower_chars(chars_of(raw_direction.as_str()).as_slice());
    let direction = string_from_chars(direction_chars.as_slice());
    let function = attr_value_of(body, "function".as_bytes());
    let capacitance = attr_value_of(body, "capacitance".as_bytes());
    let rise_capacitance = attr_value_of(body, "rise_capacitance".as_bytes());
    let fall_capacitance = attr_value_of(body, "fall_capacitance".as_bytes());
    let max_capacitance = attr_value_of(body, "max_capacitance".as_bytes());
    let three_state = attr_value_of(body, "three_state".as_bytes());
    Some(
        PinText {
            name,
            direction,
            function,
            capacitance,
            rise_capacitance,
            fall_capacitance,
            max_capacitance,
            three_state,
            timing,
            group_capacitance: None,
        },
    )
}

/// What the pins of a bundle or bus take from it: a direction and a
/// function for the pins that have none, and the bundle's capacitance text.
pub struct PinDefaults {
    pub direction: Option<String>,
    pub function: Option<String>,
    pub capacitance: Option<String>,
}

pub struct DefaultsModel {
    pub direction: Option<Seq<char>>,
    pub function: Option<Seq<char>>,
    pub capacitance: Option<Seq<char>>,
}

impl View for PinDefaults {
    type V = DefaultsModel;

    open spec fn view(&self) -> DefaultsModel {
        DefaultsModel {
            direction: opt_text(self.direction),
            function: opt_text(self.function),
            capacitance: opt_text(self.capacitance),
        }
    }
}

/// `own` when it is not empty, else the default when there is one.
pub open spec fn or_default(own: Seq<char>, default: Option<Seq<char>>) -> Seq<char> {
    match default {
        Some(d) => if own.len() == 0 {
            d
        } else {
            own
        },
        None => own,
    }
}

/// A pin with the defaults of its bundle or bus applied.
pub open spec fn with_defaults(p: PinModel, d: DefaultsModel) -> PinModel {
    PinModel {
        name: p.name,
        direction: or_default(p.direction, d.direction),
        function: or_default(p.function, d.function),
        capacitance: p.capacitance,
        rise_capacitance: p.rise_capacitance,
        fall_capacitance: p.fall_capacitance,
        max_capacitance: p.max_capacitance,
        three_state: p.three_state,
        timing: p.timing,
        group_capacitance: d.capacitance,
    }
}

/// The pins of a list of groups in `body`.
pub open spec fn pin_models(body: Seq<u8>, gs: Seq<(Seq<char>, int, int)>) -> Seq<
    Option<PinModel>,
> {
    gs.map_values(|g: (Seq<char>, int, int)| pin_model(body_of(body, g), g.0))
}

/// The pins of `body`, with the defaults `d` applied.
pub open spec fn pins_in(body: Seq<u8>, d: DefaultsModel) -> Option<Seq<PinModel>> {
    match groups_from(body, "pin".spec_bytes(), 0) {
        None => None,
        Some(gs) => match all_some(pin_models(body, gs)) {
            None => None,
            Some(ps) => Some(defaulted(ps, d)),
        },
    }
}

pub open spec fn pins_view(v: Seq<PinText>) -> Seq<PinModel> {
    v.map_values(|p: PinText| p@)
}

/// A list of pins with the defaults `d` applied.
pub open spec fn defaulted(ps: Seq<PinModel>, d: DefaultsModel) -> Seq<PinModel> {
    ps.map_values(|p: PinModel| with_defaults(p, d))
}

proof fn lemma_defaulted_push(ps: Seq<PinModel>, p: PinModel, d: DefaultsModel)
    ensures
        defaulted(ps.push(p), d) == defaulted(ps, d).push(with_defaults(p, d)),
{
    assert(defaulted(ps.push(p), d) =~= defaulted(ps, d).push(with_defaults(p, d)));
}

fn text_or_default(own: String, default: &Option<String>) -> (r: String)
    ensures
        r@ == or_default(own@, opt_text(*default)),
{
    match default {
        Some(d) => {
            if own.as_str().is_empty() {
                d.clone()
            } else {
                own
            }
        },
        None => own,
    }
}

fn apply_defaults(p: PinText, d: &PinDefaults) -> (r: PinText)
    ensures
        r@ == with_defaults(p@, d@),
{
    let PinText {
        name,
        direction,
        function,
        capacitance,
        rise_capacitance,
        fall_capacitance,
        max_capacitance,
        three_state,
        timing,
        group_capacitance: _,
    } = p;
    let direction = text_or_default(direction, &d.direction);
    let function = text_or_default(function, &d.function);
    let group_capacitance = match &d.capacitance {
        Some(c) => Some(c.clone()),
        None => None,
    };
    PinText {
        name,
        direction,
        function,
        capacitance,
        rise_capacitance,
        fall_capacitance,
        max_capacitance,
        three_state,
        timing,
        group_capacitance,
    }
}

fn parse_pins(body: &[u8], d: &PinDefaults) -> (r: Option<Vec<PinText>>)
    ensures
        r matches Some(v) ==> pins_in(body@, d@) == Some(pins_view(v@)),
        r is None ==> pins_in(body@, d@) is None,
{
    let groups = match scan_groups(body, "pin".as_bytes()) {
        None => {
            return None;
        },
        Some(g) => g,
    };
    let ghost gs = groups@.map_values(|g: Group| g@);
    let ghost xs = pin_models(body@, gs);
    let ghost raw: Seq<PinModel> = Seq::empty();
    proof {
        groups_lie_in_order(body@, "pin".spec_bytes(), 0);
        lemma_all_some_start(xs);
    }
    let mut out: Vec<PinText> = Vec::new();
    let mut i: usize = 0;
    while i < groups.len()
        invariant
            i <= groups@.len(),
            gs == groups@.map_values(|g: Group| g@),
            xs == pin_models(body@, gs),
            xs.len() == groups@.len(),
            groups_from(body@, "pin".spec_bytes(), 0) == Some(gs),
            forall|k: int| 0 <= k < gs.len() ==> 0 <= (#[trigger] gs[k]).1 <= gs[k].2 < body@.len(),
            all_some(xs) == prepend(raw, all_some(xs.skip(i as int))),
            pins_view(out@) == defaulted(raw, d@),
        decreases groups@.len() - i,
    {
        let g = &groups[i];
        assert(gs[i as int] == g@);
        let sub = slice_subrange(body, g.start, g.end);
        proof {
            lemma_all_some_step(xs, raw, i as int);
        }
        match parse_pin(sub, g.name.clone()) {
            None => {
                return None;
            },
            Some(p) => {
                let ghost before = pins_view(out@);
                let ghost pm = p@;
                proof {
                    lemma_defaulted_push(raw, pm, d@);
                    raw = raw.push(pm);
                }
                let q = apply_defaults(p, d);
                out.push(q);
                assert(pins_view(out@) =~= before.push(q@));
            },
        }
        i = i + 1;
    }
    proof {
        lemma_all_some_end(xs, raw);
    }
    Some(out)
}

// ---------------------------------------------------------------------------
// Bundles and buses
// ---------------------------------------------------------------------------

/// What the pins of a bundle (`bundle` true) or bus with body `body` take
/// from it: a bundle gives its direction, function and capacitance, a bus
/// its direction.
pub open spec fn member_defaults(body: Seq<u8>, bundle: bool) -> DefaultsModel {
    let direction = ascii_lower(attr_from(body, "direction".spec_bytes(), 0));
    if bundle {
        DefaultsModel {
            direction: Some(direction),
            function: Some(attr_from(body, "function".spec_bytes(), 0)),
            capacitance: Some(attr_from(body, "capacitance".spec_bytes(), 0)),
        }
    } else {
        DefaultsModel { direction: Some(direction), function: None, capacitance: None }
    }
}

/// The pin lists of a list of bundle or bus groups in `body`.
pub open spec fn member_lists(body: Seq<u8>, gs: Seq<(Seq<char>, int, int)>, bundle: bool) -> Seq<
    Option<Seq<PinModel>>,
> {
    gs.map_values(
        |g: (Seq<char>, int, int)|
            pins_in(body_of(body, g), member_defaults(body_of(body, g), bundle)),
    )
}

/// The pins of the bundles (`bundle` true, `kind` being `bundle`) or buses
/// (`kind` being `bus`) of `body`, in order.
pub open spec fn members_in(body: Seq<u8>, kind: Seq<u8>, bundle: bool) -> Option<Seq<PinModel>> {
    match groups_from(body, kind, 0) {
        None => None,
        Some(gs) => match all_some(member_lists(body, gs, bundle)) {
            None => None,
            Some(lists) => Some(concat_all(lists)),
        },
    }
}

fn parse_defaults(body: &[u8], bundle: bool) -> (r: PinDefaults)
    ensures
        r@ == member_defaults(body@, bundle),
{
    let raw_direction = attr_value_of(body, "direction".as_bytes());
    let direction_chars = ascii_lower_chars(chars_of(raw_direction.as_str()).as_slice());
    let direction = string_from_chars(direction_chars.as_slice());
    if bundle {
        let function = attr_value_of(body, "function".as_bytes());
        let capacitance = attr_value_of(body, "capacitance".as_bytes());
        PinDefaults {
            direction: Some(direction),
            function: Some(function),
            capacitance: Some(capacitance),
        }
    } else {
        PinDefaults { direction: Some(direction), function: None, capacitance: None }
    }
}

fn parse_members(body: &[u8], kind: &str, bundle: bool) -> (r: Option<Vec<PinText>>)
    ensures
        r matches Some(v) ==> members_in(body@, kind.spec_bytes(), bundle) == Some(
            pins_view(v@),
        ),
        r is None ==> members_in(body@, kind.spec_bytes(), bundle) is None,
{
    let groups = match scan_groups(body, kind.as_bytes()) {
        None => {
            return None;
        },
        Some(g) => g,
    };
    let ghost gs = groups@.map_values(|g: Group| g@);
    let ghost xs = member_lists(body@, gs, bundle);
    let ghost lists: Seq<Seq<PinModel>> = Seq::empty();
    proof {
        groups_lie_in_order(body@, kind.spec_bytes(), 0);
        lemma_all_some_start(xs);
    }
    let mut out: Vec<PinText> = Vec::new();
    let mut i: usize = 0;
    while i < groups.len()
        invariant
            i <= groups@.len(),
            gs == groups@.map_values(|g: Group| g@),
            xs == member_lists(body@, gs, bundle),
            xs.len() == groups@.len(),
            groups_from(body@, kind.spec_bytes(), 0) == Some(gs),
            forall|k: int| 0 <= k < gs.len() ==> 0 <= (#[trigger] gs[k]).1 <= gs[k].2 < body@.len(),
            all_some(xs) == prepend(lists, all_some(xs.skip(i as int))),
            pins_view(out@) == concat_all(lists),
        decreases groups@.len() - i,
    {
        let g = &groups[i];
        assert(gs[i as int] == g@);
        let sub = slice_subrange(body, g.start, g.end);
        proof {
            lemma_all_some_step(xs, lists, i as int);
        }
        let defaults = parse_defaults(sub, bundle);
        match parse_pins(sub, &defaults) {
            None => {
                return None;
            },
            Some(ps) => {
                let ghost list = pins_view(ps@);
                let ghost before = pins_view(out@);
                let mut ps = ps;
                out.append(&mut ps);
                assert(pins_view(out@) =~= before + list);
                proof {
                    lemma_concat_push(lists, list);
                    lists = lists.push(list);
                }
            },
        }
        i = i + 1;
    }
    proof {
        lemma_all_some_end(xs, lists);
    }
    Some(out)
}

proof fn lemma_concat_push<T>(xs: Seq<Seq<T>>, x: Seq<T>)
    ensures
        concat_all(xs.push(x)) == concat_all(xs) + x,
    decreases xs.len(),
{
    if xs.len() == 0 {
        assert(xs.push(x).drop_first() =~= Seq::<Seq<T>>::empty());
        assert(xs.push(x)[0] == x);
        assert(concat_all(Seq::<Seq<T>>::empty()) == Seq::<T>::empty());
        assert(concat_all(xs.push(x)) =~= x + Seq::<T>::empty());
        assert(concat_all(xs) + x =~= x);
    } else {
        lemma_concat_push(xs.drop_first(), x);
        assert(xs.push(x).drop_first() =~= xs.drop_first().push(x));
        assert(concat_all(xs.push(x)) =~= xs[0] + (concat_all(xs.drop_first()) + x));
    }
}

// ---------------------------------------------------------------------------
// Cells
// ---------------------------------------------------------------------------

/// A cell: its name, area text, `dont_use`/`dont_touch` flags, whether it is
/// sequential, and its pins (those of its `pin` groups, then those of its
/// bundles, then those of its buses).
#[derive(Clone, Debug)]
pub struct CellText {
    pub name: String,
    pub area: String,
    pub dont_use: bool,
    pub dont_touch: bool,
    pub is_sequential: bool,
    pub pins: Vec<PinText>,
}

pub struct CellModel {
    pub name: Seq<char>,
    pub area: Seq<char>,
    pub dont_use: bool,
    pub dont_touch: bool,
    pub is_sequential: bool,
    pub pins: Seq<PinModel>,
}

impl View for CellText {
    type V = CellModel;

    open spec fn view(&self) -> CellModel {
        CellModel {
            name: self.name@,
            area: self.area@,
            dont_use: self.dont_use,
            dont_touch: self.dont_touch,
            is_sequential: self.is_sequential,
            pins: pins_view(self.pins@),
        }
    }
}

/// No defaults: the pins of a cell's own `pin` groups.
pub open spec fn no_defaults() -> DefaultsModel {
    DefaultsModel { direction: None, function: None, capacitance: None }
}

/// A cell is sequential when it opens an `ff`, `ff_bank`, `latch`,
/// `latch_bank` or `statetable` group, or is an integrated clock-gating
/// cell.
pub open spec fn sequential_body(body: Seq<u8>) -> bool {
    ||| group_open_from(body, "ff".spec_bytes(), 0)
    ||| group_open_from(body, "ff_bank".spec_bytes(), 0)
    ||| group_open_from(body, "latch".spec_bytes(), 0)
    ||| group_open_from(body, "latch_bank".spec_bytes(), 0)
    ||| group_open_from(body, "statetable".spec_bytes(), 0)
    ||| attr_from(body, "clock_gating_integrated_cell".spec_bytes(), 0).len() > 0
}

/// The cell named `name` whose group body is `body`.
pub open spec fn cell_model(body: Seq<u8>, name: Seq<char>) -> Option<CellModel> {
    match (
        pins_in(body, no_defaults()),
        members_in(body, "bundle".spec_bytes(), true),
        members_in(body, "bus".spec_bytes(), false),
    ) {
        (Some(own), Some(bundled), Some(bused)) => Some(
            CellModel {
                name,
                area: attr_from(body, "area".spec_bytes(), 0),
                dont_use: eq_ignore_case(attr_from(body, "dont_use".spec_bytes(), 0), true_text()),
                dont_touch: eq_ignore_case(
                    attr_from(body, "dont_touch".spec_bytes(), 0),
                    true_text(),
                ),
                is_sequential: sequential_body(body),
                pins: own + bundled + bused,
            },
        ),
        _ => None,
    }
}

fn attr_is_true(body: &[u8], name: &str) -> (r: bool)
    ensures
        r == eq_ignore_case(attr_from(body@, name.spec_bytes(), 0), true_text()),
{
    let val = attr_value_of(body, name.as_bytes());
    let chars = chars_of(val.as_str());
    let t: [char; 4] = ['t', 'r', 'u', 'e'];
    assert(t@ == true_text());
    chars_eq_ignore_case(chars.as_slice(), t.as_slice())
}

fn parse_cell(body: &[u8], name: String) -> (r: Option<CellText>)
    ensures
        r matches Some(c) ==> cell_model(body@, name@) == Some(c@),
        r is None ==> cell_model(body@, name@) is None,
{
    let area = attr_value_of(body, "area".as_bytes());
    let dont_use = attr_is_true(body, "dont_use");
    let dont_touch = attr_is_true(body, "dont_touch");
    let mut is_sequential = group_opens(body, "ff".as_bytes()) || group_opens(
        body,
        "ff_bank".as_bytes(),
    ) || group_opens(body, "latch".as_bytes()) || group_opens(body, "latch_bank".as_bytes())
        || group_opens(body, "statetable".as_bytes());
    if !is_sequential {
        let icg = attr_value_of(body, "clock_gating_integrated_cell".as_bytes());
        is_sequential = !icg.as_str().is_empty();
    }
    let none = PinDefaults { direction: None, function: None, capacitance: None };
    let own = match parse_pins(body, &none) {
        None => {
            return None;
        },
        Some(v) => v,
    };
    let bundled = match parse_members(body, "bundle", true) {
        None => {
            return None;
        },
        Some(v) => v,
    };
    let bused = match parse_members(body, "bus", false) {
        None => {
            return None;
        },
        Some(v) => v,
    };
    let mut pins = own;
    let mut bundled = bundled;
    let mut bused = bused;
    let ghost a = pins_view(pins@);
    let ghost b = pins_view(bundled@);
    let ghost c = pins_view(bused@);
    pins.append(&mut bundled);
    pins.append(&mut bused);
    assert(pins_view(pins@) =~= a + b + c);
    Some(CellText { name, area, dont_use, dont_touch, is_sequential, pins })
}

/// The cells of a list of groups in `data`.
pub open spec fn cell_models(data: Seq<u8>, gs: Seq<(Seq<char>, int, int)>) -> Seq<
    Option<CellModel>,
> {
    gs.map_values(|g: (Seq<char>, int, int)| cell_model(body_of(data, g), g.0))
}

/// The cells of a Liberty text: the `cell` groups of the text with its
/// comments removed. `None` on the inputs on which a scan cannot complete.
pub open spec fn library_model(data: Seq<u8>) -> Option<Seq<CellModel>> {
    let s = stripped(data);
    match groups_from(s, "cell".spec_bytes(), 0) {
        None => None,
        Some(gs) => all_some(cell_models(s, gs)),
    }
}

pub open spec fn cells_view(v: Seq<CellText>) -> Seq<CellModel> {
    v.map_values(|c: CellText| c@)
}

/// Reads the cells of a Liberty text (see [`library_model`]).
#[verifier::rlimit(50)]
pub fn parse_liberty(data: &[u8]) -> (r: Option<Vec<CellText>>)
    ensures
        r matches Some(v) ==> library_model(data@) == Some(cells_view(v@)),
        r is None ==> library_model(data@) is None,
{
    let text = strip_comments(data);
    let s = text.as_slice();
    let groups = match scan_groups(s, "cell".as_bytes()) {
        None => {
            return None;
        },
        Some(g) => g,
    };
    let ghost gs = groups@.map_values(|g: Group| g@);
    let ghost xs = cell_models(s@, gs);
    proof {
        groups_lie_in_order(s@, "cell".spec_bytes(), 0);
        lemma_all_some_start(xs);
    }
    let mut out: Vec<CellText> = Vec::new();
    let mut i: usize = 0;
    while i < groups.len()
        invariant
            i <= groups@.len(),
            s@ == stripped(data@),
            gs == groups@.map_values(|g: Group| g@),
            xs == cell_models(s@, gs),
            xs.len() == groups@.len(),
            groups_from(s@, "cell".spec_bytes(), 0) == Some(gs),
            forall|k: int| 0 <= k < gs.len() ==> 0 <= (#[trigger] gs[k]).1 <= gs[k].2 < s@.len(),
            all_some(xs) == prepend(cells_view(out@), all_some(xs.skip(i as int))),
        decreases groups@.len() - i,
    {
        let g = &groups[i];
        assert(gs[i as int] == g@);
        let sub = slice_subrange(s, g.start, g.end);
        proof {
            lemma_all_some_step(xs, cells_view(out@), i as int);
        }
        match parse_cell(sub, g.name.clone()) {
            None => {
                return None;
            },
            Some(c) => {
                let ghost before = cells_view(out@);
                out.push(c);
                assert(cells_view(out@) =~= before.push(c@));
            },
        }
        i = i + 1;
    }
    proof {
        lemma_all_some_end(xs, cells_view(out@));
    }
    Some(out)
}

// ---------------------------------------------------------------------------
// Laws
// ---------------------------------------------------------------------------

/// The load index of a table is its `index_2` list: in a table body made of
/// `pre`, `index_2("`, a text `t` without double quotes, `"` and anything
/// else, where `pre` holds no earlier `index_2`, the table's `index_2`
/// entries are the comma-separated pieces of `t`, trimmed.
pub proof fn table_load_index_is_index_2(pre: Seq<u8>, t: Seq<u8>, rest: Seq<u8>)
    requires
        forall|j: int|
            0 <= j < pre.len() ==> !matches_at(
                pre + "index_2".spec_bytes() + seq![LPAREN, QUOTE] + t + seq![QUOTE] + rest,
                "index_2".spec_bytes(),
                j,
            ),
        forall|k: int| 0 <= k < t.len() ==> t[k] != QUOTE,
    ensures
        table_model(pre + "index_2".spec_bytes() + seq![LPAREN, QUOTE] + t + seq![QUOTE] + rest)
            matches Some(m) ==> m.index_2 == trimmed_pieces(lossy_utf8(t), ','),
{
    reveal_strlit("index_2");
    lemma_encode_nonempty("index_2"@);
    index_list_reads_quoted_text(pre, "index_2".spec_bytes(), t, rest);
}

/// The transition index of a table is its `index_1` list (see
/// [`table_load_index_is_index_2`]).
pub proof fn table_transition_index_is_index_1(pre: Seq<u8>, t: Seq<u8>, rest: Seq<u8>)
    requires
        forall|j: int|
            0 <= j < pre.len() ==> !matches_at(
                pre + "index_1".spec_bytes() + seq![LPAREN, QUOTE] + t + seq![QUOTE] + rest,
                "index_1".spec_bytes(),
                j,
            ),
        forall|k: int| 0 <= k < t.len() ==> t[k] != QUOTE,
    ensures
        table_model(pre + "index_1".spec_bytes() + seq![LPAREN, QUOTE] + t + seq![QUOTE] + rest)
            matches Some(m) ==> m.index_1 == trimmed_pieces(lossy_utf8(t), ','),
{
    reveal_strlit("index_1");
    lemma_encode_nonempty("index_1"@);
    index_list_reads_quoted_text(pre, "index_1".spec_bytes(), t, rest);
}

/// A cell that opens a flip-flop, flip-flop bank, latch, latch bank or
/// state-table group is sequential, and so is an integrated clock-gating
/// cell.
pub proof fn storage_cells_are_sequential(body: Seq<u8>, name: Seq<char>)
    requires
        group_open_from(body, "ff".spec_bytes(), 0) || group_open_from(
            body,
            "ff_bank".spec_bytes(),
            0,
        ) || group_open_from(body, "latch".spec_bytes(), 0) || group_open_from(
            body,
            "latch_bank".spec_bytes(),
            0,
        ) || group_open_from(body, "statetable".spec_bytes(), 0) || attr_from(
            body,
            "clock_gating_integrated_cell".spec_bytes(),
            0,
        ).len() > 0,
    ensures
        cell_model(body, name) matches Some(c) ==> c.is_sequential,
{
}

} // verus!
