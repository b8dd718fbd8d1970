//! Decoding one announcement body: the root JSON array, its legacy (v3)
//! action list and its run-length-encoded (v4) action columns.

use vstd::prelude::*;
use crate::json::{find_member, json_of_text, member, parse_json, str_equal, Json};
use crate::text::{chars_of, csv_items, lower_of, lowercase, pieces_view, split_chars, string_of};
use vstd::string::StringExecFns;

verus! {

/// The most entries a v4 action column may expand to. This is a limit of
/// this library, not of the wire format: it keeps a repeat count in a short
/// record from demanding unbounded memory. A column past it is refused with
/// `RLEOverrun`.
pub const MAX_ACTIONS_PER_RECORD: usize = 65536;

#[derive(Debug, Clone, Copy, PartialEq, Eq, Structural)]
pub enum CrudOp {
    Create,
    Read,
    Update,
    Delete,
}

#[derive(Debug, Clone, PartialEq, Eq)]
pub enum Flag {
    NoAuth,
    /// `t<digits>`: a timeout.
    Timeout(u32),
    Other(String),
    CrudOp(CrudOp),
}

pub enum FlagView {
    NoAuth,
    Timeout(u32),
    Other(Seq<char>),
    CrudOp(CrudOp),
}

impl View for Flag {
    type V = FlagView;

    open spec fn view(&self) -> FlagView {
        match self {
            Flag::NoAuth => FlagView::NoAuth,
            Flag::Timeout(t) => FlagView::Timeout(*t),
            Flag::Other(s) => FlagView::Other(s@),
            Flag::CrudOp(c) => FlagView::CrudOp(*c),
        }
    }
}

/// Which wire schema an action came from.
#[derive(Debug, Clone, Copy, PartialEq, Eq, Structural)]
pub enum PacketSection {
    V3,
    V4,
}

/// A callable operation, identified by its dotted path and version.
#[derive(Debug, Clone, PartialEq, Eq)]
pub struct Action {
    pub path: String,
    pub version: u32,
    pub flags: Vec<Flag>,
    pub sector: String,
    pub envelopes: Vec<String>,
    pub packet_section: PacketSection,
}

pub struct ActionView {
    pub path: Seq<char>,
    pub version: u32,
    pub flags: Seq<FlagView>,
    pub sector: Seq<char>,
    pub envelopes: Seq<Seq<char>>,
    pub packet_section: PacketSection,
}

pub open spec fn flag_views(v: Seq<Flag>) -> Seq<FlagView> {
    v.map_values(|f: Flag| f@)
}

pub open spec fn string_views(v: Seq<String>) -> Seq<Seq<char>> {
    v.map_values(|s: String| s@)
}

impl View for Action {
    type V = ActionView;

    open spec fn view(&self) -> ActionView {
        ActionView {
            path: self.path@,
            version: self.version,
            flags: flag_views(self.flags@),
            sector: self.sector@,
            envelopes: string_views(self.envelopes@),
            packet_section: self.packet_section,
        }
    }
}

/// The fields of an announcement, and the columns of a v4 action object.
#[derive(Debug, Clone, Copy, PartialEq, Eq, Structural)]
pub enum Field {
    Version,
    Identity,
    Sector,
    Weight,
    Interval,
    Uri,
    EnvelopesAndV4Actions,
    V3Actions,
    Timestamp,
    Namespace,
    Acns,
    Acname,
    Acenv,
    Acsec,
    Accompat,
    Acver,
    Acflag,
}

/// What is wrong with a v3 action entry.
#[derive(Debug, Clone, Copy, PartialEq, Eq, Structural)]
pub enum V3Fault {
    Name,
    Flags,
    Version,
    /// Not an array of two or three elements.
    Shape,
}

#[derive(Debug)]
pub enum ServiceInfoParseError {
    ExpectedJsonArray,
    InvalidRootArray,
    MissingField(Field),
    InvalidField(Field),
    JsonError(serde_json::Error),
    /// A column entry (by index) whose value has the wrong type.
    RLEValue(Field, usize),
    /// A column entry that is an array but not `[count, value]`: its length.
    RLEChunkLen(Field, usize, usize),
    /// A column entry whose repeat count is not a non-negative integer.
    RLERepeatCount(Field, usize),
    /// A column entry that takes the column past the length it may have.
    RLEOverrun(Field, usize),
    /// A column that expands to another length than `acname`: expected, found.
    RLELength(Field, usize, usize),
    InvalidV3Namespace(usize),
    InvalidV3Action(usize, usize, V3Fault),
}

pub open spec fn field_key(f: Field) -> Seq<char> {
    match f {
        Field::Acns => "acns"@,
        Field::Acname => "acname"@,
        Field::Acenv => "acenv"@,
        Field::Acsec => "acsec"@,
        Field::Accompat => "accompat"@,
        Field::Acver => "acver"@,
        Field::Acflag => "acflag"@,
        Field::Version => "version"@,
        Field::Identity => "identity"@,
        Field::Sector => "sector"@,
        Field::Weight => "weight"@,
        Field::Interval => "interval"@,
        Field::Uri => "uri"@,
        Field::EnvelopesAndV4Actions => "envelopes_and_v4actions"@,
        Field::V3Actions => "v3_actions"@,
        Field::Timestamp => "timestamp"@,
        Field::Namespace => "namespace"@,
    }
}

impl Field {
    /// The name of this field; for a column, its key in a v4 action object.
    pub fn key(&self) -> (r: &'static str)
        ensures
            r@ == field_key(*self),
    {
        match self {
            Field::Acns => "acns",
            Field::Acname => "acname",
            Field::Acenv => "acenv",
            Field::Acsec => "acsec",
            Field::Accompat => "accompat",
            Field::Acver => "acver",
            Field::Acflag => "acflag",
            Field::Version => "version",
            Field::Identity => "identity",
            Field::Sector => "sector",
            Field::Weight => "weight",
            Field::Interval => "interval",
            Field::Uri => "uri",
            Field::EnvelopesAndV4Actions => "envelopes_and_v4actions",
            Field::V3Actions => "v3_actions",
            Field::Timestamp => "timestamp",
            Field::Namespace => "namespace",
        }
    }
}

// ---- flags ----

pub open spec fn crud_of(s: Seq<char>) -> Option<CrudOp> {
    if s == "create"@ {
        Some(CrudOp::Create)
    } else if s == "read"@ {
        Some(CrudOp::Read)
    } else if s == "update"@ {
        Some(CrudOp::Update)
    } else if s == "delete"@ {
        Some(CrudOp::Delete)
    } else {
        None
    }
}

pub open spec fn is_digit_char(c: char) -> bool {
    '0' <= c <= '9'
}

pub open spec fn char_digits_value(s: Seq<char>) -> nat
    decreases s.len(),
{
    if s.len() == 0 {
        0
    } else {
        char_digits_value(s.drop_last()) * 10 + ((s.last() as u32) - 48) as nat
    }
}

/// The timeout that a `t<digits>` flag names, when it fits in a `u32`.
pub open spec fn timeout_of(s: Seq<char>) -> Option<u32> {
    let digits = s.drop_first();
    if s.len() >= 2 && s[0] == 't' && (forall|i: int| 0 <= i < digits.len() ==> #[trigger] is_digit_char(digits[i]))
        && char_digits_value(digits) <= u32::MAX {
        Some(char_digits_value(digits) as u32)
    } else {
        None
    }
}

pub open spec fn flag_of(s: Seq<char>) -> FlagView {
    if s == "noauth"@ {
        FlagView::NoAuth
    } else if timeout_of(s) is Some {
        FlagView::Timeout(timeout_of(s)->0)
    } else if crud_of(s) is Some {
        FlagView::CrudOp(crud_of(s)->0)
    } else {
        FlagView::Other(s)
    }
}

/// The flags of a comma-separated flag list; empty items are skipped.
pub open spec fn flags_of(csv: Seq<char>) -> Seq<FlagView> {
    csv_items(csv).map_values(|p: Seq<char>| flag_of(p))
}

impl CrudOp {
    pub fn parse(v: &str) -> (r: Option<CrudOp>)
        ensures
            r == crud_of(v@),
    {
        if str_equal(v, "create") {
            Some(CrudOp::Create)
        } else if str_equal(v, "read") {
            Some(CrudOp::Read)
        } else if str_equal(v, "update") {
            Some(CrudOp::Update)
        } else if str_equal(v, "delete") {
            Some(CrudOp::Delete)
        } else {
            None
        }
    }
}

fn timeout_in(cs: &Vec<char>) -> (r: Option<u32>)
    ensures
        r == timeout_of(cs@),
{
    let ghost digits = cs@.drop_first();
    if cs.len() < 2 || cs[0] != 't' {
        return None;
    }
    let mut acc: u64 = 0;
    let mut i: usize = 1;
    while i < cs.len()
        invariant
            1 <= i <= cs@.len(),
            digits == cs@.drop_first(),
            forall|k: int| 0 <= k < i - 1 ==> #[trigger] is_digit_char(digits[k]),
            acc as nat == char_digits_value(digits.subrange(0, i - 1)),
            acc <= u32::MAX,
        decreases cs@.len() - i,
    {
        let c = cs[i];
        if !('0' <= c && c <= '9') {
            assert(!is_digit_char(digits[i - 1]));
            return None;
        }
        let ghost prefix = digits.subrange(0, i - 1);
        assert(digits.subrange(0, i as int) =~= prefix.push(c));
        assert(digits.subrange(0, i as int).drop_last() =~= prefix);
        let d = (c as u32 - 48) as u64;
        acc = acc * 10 + d;
        if acc > u32::MAX as u64 {
            proof {
                lemma_char_digits_grow(digits, i as int);
            }
            return None;
        }
        i = i + 1;
    }
    assert(digits.subrange(0, digits.len() as int) =~= digits);
    Some(acc as u32)
}

/// The value of a digit run never shrinks as it grows.
proof fn lemma_char_digits_grow(s: Seq<char>, i: int)
    requires
        0 <= i <= s.len(),
        forall|k: int| 0 <= k < s.len() ==> #[trigger] is_digit_char(s[k]) || k >= i,
    ensures
        char_digits_value(s) >= char_digits_value(s.subrange(0, i)) || exists|k: int| i <= k < s.len() && !is_digit_char(s[k]),
    decreases s.len() - i,
{
    if i < s.len() {
        if is_digit_char(s[i]) {
            assert(s.subrange(0, i + 1).drop_last() =~= s.subrange(0, i));
            lemma_char_digits_grow(s, i + 1);
        }
    } else {
        assert(s.subrange(0, i) =~= s);
    }
}

impl Flag {
    /// Reads one flag: `noauth`, `t<digits>`, a CRUD word, or anything else.
    pub fn parse(v: &str) -> (r: Flag)
        ensures
            r@ == flag_of(v@),
    {
        if str_equal(v, "noauth") {
            return Flag::NoAuth;
        }
        let cs = chars_of(v);
        match timeout_in(&cs) {
            Some(t) => Flag::Timeout(t),
            None => match CrudOp::parse(v) {
                Some(c) => Flag::CrudOp(c),
                None => Flag::Other(string_of(cs.as_slice())),
            },
        }
    }
}

proof fn lemma_filter_push(s: Seq<Seq<char>>, x: Seq<char>)
    ensures
        s.push(x).filter(|p: Seq<char>| p.len() > 0) == (if x.len() > 0 {
            s.filter(|p: Seq<char>| p.len() > 0).push(x)
        } else {
            s.filter(|p: Seq<char>| p.len() > 0)
        }),
{
    reveal(Seq::filter);
    assert(s.push(x).drop_last() =~= s);
}

/// The non-empty items of a comma-separated list.
pub fn csv_pieces(s: &str) -> (r: Vec<Vec<char>>)
    ensures
        pieces_view(r@) == csv_items(s@),
{
    let cs = chars_of(s);
    let comma: [char; 1] = [','];
    assert(comma@ =~= seq![',']);
    let pieces = split_chars(&cs, comma.as_slice());
    let mut out: Vec<Vec<char>> = Vec::new();
    let mut i: usize = 0;
    proof {
        reveal(Seq::filter);
        assert(pieces_view(pieces@).subrange(0, 0) =~= Seq::<Seq<char>>::empty());
    }
    while i < pieces.len()
        invariant
            i <= pieces@.len(),
            pieces_view(out@) == pieces_view(pieces@).subrange(0, i as int).filter(|p: Seq<char>| p.len() > 0),
        decreases pieces@.len() - i,
    {
        let ghost pv = pieces_view(pieces@);
        proof {
            assert(pv.subrange(0, i + 1) =~= pv.subrange(0, i as int).push(pv[i as int]));
            lemma_filter_push(pv.subrange(0, i as int), pv[i as int]);
        }
        if pieces[i].len() > 0 {
            let ghost before = out@;
            let mut p: Vec<char> = Vec::new();
            let mut k: usize = 0;
            while k < pieces[i].len()
                invariant
                    i < pieces@.len(),
                    k <= pieces@[i as int]@.len(),
                    p@ == pieces@[i as int]@.subrange(0, k as int),
                decreases pieces@[i as int]@.len() - k,
            {
                p.push(pieces[i][k]);
                assert(pieces@[i as int]@.subrange(0, k + 1) =~= pieces@[i as int]@.subrange(0, k as int).push(pieces@[i as int]@[k as int]));
                k = k + 1;
            }
            assert(p@ =~= pieces@[i as int]@);
            out.push(p);
            assert(pieces_view(out@) =~= pieces_view(before).push(pv[i as int]));
        }
        i = i + 1;
    }
    assert(pieces_view(pieces@).subrange(0, pieces@.len() as int) =~= pieces_view(pieces@));
    out
}

/// The flags of a comma-separated flag list.
pub fn parse_flags(s: &str) -> (r: Vec<Flag>)
    ensures
        flag_views(r@) == flags_of(s@),
{
    let items = csv_pieces(s);
    let mut out: Vec<Flag> = Vec::new();
    let mut i: usize = 0;
    while i < items.len()
        invariant
            i <= items@.len(),
            pieces_view(items@) == csv_items(s@),
            flag_views(out@) == csv_items(s@).subrange(0, i as int).map_values(|p: Seq<char>| flag_of(p)),
        decreases items@.len() - i,
    {
        let item = string_of(items[i].as_slice());
        let f = Flag::parse(item.as_str());
        let ghost before = out@;
        out.push(f);
        assert(pieces_view(items@)[i as int] == items@[i as int]@);
        assert(item@ == csv_items(s@)[i as int]);
        assert(flag_views(out@) =~= flag_views(before).push(f@));
        assert(flag_views(out@) =~= csv_items(s@).subrange(0, i + 1).map_values(|p: Seq<char>| flag_of(p)));
        i = i + 1;
    }
    assert(csv_items(s@).subrange(0, items@.len() as int) =~= csv_items(s@));
    out
}

/// The non-empty items of a comma-separated list, as strings.
pub fn parse_csv(s: &str) -> (r: Vec<String>)
    ensures
        string_views(r@) == csv_items(s@),
{
    let items = csv_pieces(s);
    let mut out: Vec<String> = Vec::new();
    let mut i: usize = 0;
    while i < items.len()
        invariant
            i <= items@.len(),
            pieces_view(items@) == csv_items(s@),
            string_views(out@) == csv_items(s@).subrange(0, i as int),
        decreases items@.len() - i,
    {
        let item = string_of(items[i].as_slice());
        let ghost before = out@;
        let ghost iv = item@;
        out.push(item);
        assert(pieces_view(items@)[i as int] == items@[i as int]@);
        assert(iv == csv_items(s@)[i as int]);
        assert(string_views(out@) =~= string_views(before).push(iv));
        assert(string_views(out@) =~= csv_items(s@).subrange(0, i + 1));
        i = i + 1;
    }
    assert(csv_items(s@).subrange(0, items@.len() as int) =~= csv_items(s@));
    out
}


// ---- run-length-encoded columns ----

/// A value that a v4 action column holds.
pub trait ColumnValue: Sized + View {
    /// The value that a JSON element gives, if it has the right type.
    spec fn decoded(j: Json) -> Option<Self::V>;

    /// The value of a column entry that the object leaves out.
    spec fn blank() -> Self::V;

    fn decode(j: &Json) -> (r: Option<Self>)
        ensures
            r is Some <==> Self::decoded(*j) is Some,
            r matches Some(v) ==> Self::decoded(*j) == Some(v@);

    fn blank_value() -> (r: Self)
        ensures
            r@ == Self::blank();

    fn copy(&self) -> (r: Self)
        ensures
            r@ == self@;
}

impl ColumnValue for String {
    open spec fn decoded(j: Json) -> Option<Seq<char>> {
        j.spec_as_str()
    }

    open spec fn blank() -> Seq<char> {
        Seq::empty()
    }

    fn decode(j: &Json) -> (r: Option<String>) {
        match j {
            Json::Str(s) => Some(s.clone()),
            _ => None,
        }
    }

    fn blank_value() -> (r: String) {
        String::new()
    }

    fn copy(&self) -> (r: String) {
        self.clone()
    }
}

impl ColumnValue for u32 {
    open spec fn decoded(j: Json) -> Option<u32> {
        match j.spec_as_u64() {
            Some(u) => if u <= u32::MAX {
                Some(u as u32)
            } else {
                None
            },
            None => None,
        }
    }

    open spec fn blank() -> u32 {
        0
    }

    fn decode(j: &Json) -> (r: Option<u32>) {
        match j.as_u64() {
            Some(u) => if u <= u32::MAX as u64 {
                Some(u as u32)
            } else {
                None
            },
            None => None,
        }
    }

    fn blank_value() -> (r: u32) {
        0
    }

    fn copy(&self) -> (r: u32) {
        *self
    }
}

pub open spec fn column_views<T: View>(v: Seq<T>) -> Seq<T::V> {
    v.map_values(|t: T| t@)
}

/// Expands the entries of a column from entry `i` on, after `acc`: a
/// `[count, value]` pair stands for `count` copies of `value`, any other
/// entry for itself; the column may not grow past `cap` entries.
pub open spec fn rle_expand<T: ColumnValue>(
    entries: Seq<Json>,
    i: int,
    acc: Seq<T::V>,
    cap: nat,
    f: Field,
) -> Result<Seq<T::V>, ServiceInfoParseError>
    decreases entries.len() - i,
{
    if i < 0 || i >= entries.len() {
        Ok(acc)
    } else {
        match entries[i] {
            Json::Array(pair) => if pair@.len() == 2 {
                match pair@[0].spec_as_u64() {
                    None => Err(ServiceInfoParseError::RLERepeatCount(f, i as usize)),
                    Some(count) => match T::decoded(pair@[1]) {
                        None => Err(ServiceInfoParseError::RLEValue(f, i as usize)),
                        Some(v) => if acc.len() + count > cap {
                            Err(ServiceInfoParseError::RLEOverrun(f, i as usize))
                        } else {
                            rle_expand::<T>(entries, i + 1, acc + Seq::new(count as nat, |k: int| v), cap, f)
                        },
                    },
                }
            } else {
                Err(ServiceInfoParseError::RLEChunkLen(f, i as usize, pair@.len() as usize))
            },
            _ => match T::decoded(entries[i]) {
                None => Err(ServiceInfoParseError::RLEValue(f, i as usize)),
                Some(v) => if acc.len() + 1 > cap {
                    Err(ServiceInfoParseError::RLEOverrun(f, i as usize))
                } else {
                    rle_expand::<T>(entries, i + 1, acc.push(v), cap, f)
                },
            },
        }
    }
}

/// The values of column `f` of a v4 action object. An absent column is an
/// error when it is required, else `len` blanks; a lone value stands for
/// `len` copies of itself.
pub open spec fn column_of<T: ColumnValue>(
    ms: Seq<(String, Json)>,
    f: Field,
    required: bool,
    len: nat,
    cap: nat,
) -> Result<Seq<T::V>, ServiceInfoParseError> {
    match member(ms, field_key(f)) {
        None => if required {
            Err(ServiceInfoParseError::MissingField(f))
        } else {
            Ok(Seq::new(len, |k: int| T::blank()))
        },
        Some(Json::Array(entries)) => rle_expand::<T>(entries@, 0, Seq::empty(), cap, f),
        Some(v) => match T::decoded(v) {
            None => Err(ServiceInfoParseError::RLEValue(f, 0)),
            Some(x) => Ok(Seq::new(len, |k: int| x)),
        },
    }
}

fn push_copies<T: ColumnValue>(out: &mut Vec<T>, v: &T, count: usize)
    ensures
        column_views(final(out)@) == column_views(old(out)@) + Seq::new(count as nat, |k: int| v@),
{
    let mut k: usize = 0;
    while k < count
        invariant
            k <= count,
            column_views(out@) == column_views(old(out)@) + Seq::new(k as nat, |m: int| v@),
        decreases count - k,
    {
        let ghost before = out@;
        let c = v.copy();
        let ghost cv = c@;
        out.push(c);
        assert(out@ == before.push(c));
        assert(column_views(out@) =~= column_views(before).push(cv));
        assert(column_views(out@) =~= column_views(old(out)@) + Seq::new((k + 1) as nat, |m: int| v@));
        k = k + 1;
    }
}

/// Expands column `f` of a v4 action object.
pub fn unrle<T: ColumnValue>(
    ms: &Vec<(String, Json)>,
    f: Field,
    required: bool,
    len: usize,
    cap: usize,
) -> (r: Result<Vec<T>, ServiceInfoParseError>)
    ensures
        match column_of::<T>(ms@, f, required, len as nat, cap as nat) {
            Ok(v) => r matches Ok(out) && column_views(out@) == v,
            Err(e) => r == Err::<Vec<T>, ServiceInfoParseError>(e),
        },
{
    match find_member(ms, f.key()) {
        None => {
            if required {
                Err(ServiceInfoParseError::MissingField(f))
            } else {
                let mut out: Vec<T> = Vec::new();
                let b = T::blank_value();
                push_copies(&mut out, &b, len);
                assert(column_views(out@) =~= Seq::new(len as nat, |k: int| T::blank()));
                Ok(out)
            }
        },
        Some(Json::Array(entries)) => {
            let mut out: Vec<T> = Vec::new();
            let mut i: usize = 0;
            assert(column_views(out@) =~= Seq::<T::V>::empty());
            let ghost whole = column_of::<T>(ms@, f, required, len as nat, cap as nat);
            assert(whole == rle_expand::<T>(entries@, 0, Seq::empty(), cap as nat, f));
            while i < entries.len()
                invariant
                    whole == column_of::<T>(ms@, f, required, len as nat, cap as nat),
                    whole == rle_expand::<T>(entries@, 0, Seq::empty(), cap as nat, f),
                    i <= entries@.len(),
                    column_views(out@).len() <= cap,
                    rle_expand::<T>(entries@, 0, Seq::empty(), cap as nat, f) == rle_expand::<T>(
                        entries@,
                        i as int,
                        column_views(out@),
                        cap as nat,
                        f,
                    ),
                decreases entries@.len() - i,
            {
                let ghost acc = column_views(out@);
                let ghost step = rle_expand::<T>(entries@, i as int, acc, cap as nat, f);
                match &entries[i] {
                    Json::Array(pair) => {
                        assert(entries@[i as int] == Json::Array(*pair));
                        if pair.len() != 2 {
                            assert(step == Err::<Seq<T::V>, ServiceInfoParseError>(ServiceInfoParseError::RLEChunkLen(f, i, pair.len())));
                            return Err(ServiceInfoParseError::RLEChunkLen(f, i, pair.len()));
                        }
                        let count = match pair[0].as_u64() {
                            Some(c) => c,
                            None => {
                                return Err(ServiceInfoParseError::RLERepeatCount(f, i));
                            },
                        };
                        let v = match T::decode(&pair[1]) {
                            Some(v) => v,
                            None => {
                                return Err(ServiceInfoParseError::RLEValue(f, i));
                            },
                        };
                        if count > (cap - out.len()) as u64 {
                            return Err(ServiceInfoParseError::RLEOverrun(f, i));
                        }
                        push_copies(&mut out, &v, count as usize);
                        assert(step == rle_expand::<T>(entries@, i + 1, column_views(out@), cap as nat, f));
                    },
                    _ => {
                        let v = match T::decode(&entries[i]) {
                            Some(v) => v,
                            None => {
                                return Err(ServiceInfoParseError::RLEValue(f, i));
                            },
                        };
                        assert(!(entries@[i as int] is Array));
                        if out.len() >= cap {
                            assert(step == Err::<Seq<T::V>, ServiceInfoParseError>(ServiceInfoParseError::RLEOverrun(f, i)));
                            return Err(ServiceInfoParseError::RLEOverrun(f, i));
                        }
                        let ghost before = out@;
                        let ghost vv = v@;
                        out.push(v);
                        assert(column_views(out@) =~= column_views(before).push(vv));
                        assert(step == rle_expand::<T>(entries@, i + 1, column_views(out@), cap as nat, f));
                    },
                }
                i = i + 1;
            }
            assert(rle_expand::<T>(entries@, i as int, column_views(out@), cap as nat, f) == Ok::<Seq<T::V>, ServiceInfoParseError>(column_views(out@)));
            Ok(out)
        },
        Some(j) => match T::decode(j) {
            None => Err(ServiceInfoParseError::RLEValue(f, 0)),
            Some(x) => {
                let mut out: Vec<T> = Vec::new();
                push_copies(&mut out, &x, len);
                assert(column_views(out@) =~= Seq::new(len as nat, |k: int| x@));
                Ok(out)
            },
        },
    }
}


// ---- v4 action objects ----

pub open spec fn dotted(namespace: Seq<char>, name: Seq<char>) -> Seq<char> {
    namespace + "."@ + name
}

pub open spec fn v4_action(
    ns: Seq<Seq<char>>,
    names: Seq<Seq<char>>,
    envs: Seq<Seq<char>>,
    secs: Seq<Seq<char>>,
    vers: Seq<u32>,
    flagss: Seq<Seq<char>>,
    k: int,
) -> ActionView {
    ActionView {
        path: dotted(ns[k], names[k]),
        version: vers[k],
        flags: flags_of(flagss[k]),
        sector: lower_of(secs[k]),
        envelopes: csv_items(envs[k]),
        packet_section: PacketSection::V4,
    }
}

/// The actions of one v4 action object: its columns expanded, each of the
/// length of `acname`, and read across.
pub open spec fn v4_actions_of(ms: Seq<(String, Json)>) -> Result<Seq<ActionView>, ServiceInfoParseError> {
    let cap = MAX_ACTIONS_PER_RECORD as nat;
    match column_of::<String>(ms, Field::Acns, true, 0, cap) {
        Err(e) => Err(e),
        Ok(ns) => match column_of::<String>(ms, Field::Acname, true, 0, cap) {
            Err(e) => Err(e),
            Ok(names) => {
                let len = names.len();
                match column_of::<String>(ms, Field::Acenv, true, 0, cap) {
                    Err(e) => Err(e),
                    Ok(envs) => match column_of::<String>(ms, Field::Acsec, true, 0, cap) {
                        Err(e) => Err(e),
                        Ok(secs) => match column_of::<u32>(ms, Field::Accompat, false, len, len) {
                            Err(e) => Err(e),
                            Ok(compats) => match column_of::<u32>(ms, Field::Acver, false, len, len) {
                                Err(e) => Err(e),
                                Ok(vers) => match column_of::<String>(ms, Field::Acflag, false, len, len) {
                                    Err(e) => Err(e),
                                    Ok(flagss) => if ns.len() != len {
                                        Err(ServiceInfoParseError::RLELength(Field::Acns, len as usize, ns.len() as usize))
                                    } else if envs.len() != len {
                                        Err(ServiceInfoParseError::RLELength(Field::Acenv, len as usize, envs.len() as usize))
                                    } else if secs.len() != len {
                                        Err(ServiceInfoParseError::RLELength(Field::Acsec, len as usize, secs.len() as usize))
                                    } else if compats.len() != len {
                                        Err(ServiceInfoParseError::RLELength(Field::Accompat, len as usize, compats.len() as usize))
                                    } else if vers.len() != len {
                                        Err(ServiceInfoParseError::RLELength(Field::Acver, len as usize, vers.len() as usize))
                                    } else if flagss.len() != len {
                                        Err(ServiceInfoParseError::RLELength(Field::Acflag, len as usize, flagss.len() as usize))
                                    } else {
                                        Ok(Seq::new(len, |k: int| v4_action(ns, names, envs, secs, vers, flagss, k)))
                                    },
                                },
                            },
                        },
                    },
                }
            },
        },
    }
}

pub open spec fn action_views(v: Seq<Action>) -> Seq<ActionView> {
    v.map_values(|a: Action| a@)
}

fn length_check(f: Field, len: usize, found: usize) -> (r: Result<(), ServiceInfoParseError>)
    ensures
        found == len ==> r is Ok,
        found != len ==> r == Err::<(), ServiceInfoParseError>(ServiceInfoParseError::RLELength(f, len, found)),
{
    if found != len {
        Err(ServiceInfoParseError::RLELength(f, len, found))
    } else {
        Ok(())
    }
}

/// The actions of one v4 action object.
pub fn parse_v4_actions(ms: &Vec<(String, Json)>) -> (r: Result<Vec<Action>, ServiceInfoParseError>)
    ensures
        match v4_actions_of(ms@) {
            Ok(v) => r matches Ok(out) && action_views(out@) == v,
            Err(e) => r == Err::<Vec<Action>, ServiceInfoParseError>(e),
        },
{
    let cap = MAX_ACTIONS_PER_RECORD;
    let ns = unrle::<String>(ms, Field::Acns, true, 0, cap)?;
    let names = unrle::<String>(ms, Field::Acname, true, 0, cap)?;
    let len = names.len();
    let envs = unrle::<String>(ms, Field::Acenv, true, 0, cap)?;
    let secs = unrle::<String>(ms, Field::Acsec, true, 0, cap)?;
    let compats = unrle::<u32>(ms, Field::Accompat, false, len, len)?;
    let vers = unrle::<u32>(ms, Field::Acver, false, len, len)?;
    let flagss = unrle::<String>(ms, Field::Acflag, false, len, len)?;
    proof {
        assert(column_views(names@).len() == names@.len());
        assert(column_views(ns@).len() == ns@.len());
        assert(column_views(envs@).len() == envs@.len());
        assert(column_views(secs@).len() == secs@.len());
        assert(column_views(compats@).len() == compats@.len());
        assert(column_views(vers@).len() == vers@.len());
        assert(column_views(flagss@).len() == flagss@.len());
    }
    length_check(Field::Acns, len, ns.len())?;
    length_check(Field::Acenv, len, envs.len())?;
    length_check(Field::Acsec, len, secs.len())?;
    length_check(Field::Accompat, len, compats.len())?;
    length_check(Field::Acver, len, vers.len())?;
    length_check(Field::Acflag, len, flagss.len())?;
    let ghost nsv = column_views(ns@);
    let ghost namesv = column_views(names@);
    let ghost envsv = column_views(envs@);
    let ghost secsv = column_views(secs@);
    let ghost versv = column_views(vers@);
    let ghost flagsv = column_views(flagss@);
    let mut out: Vec<Action> = Vec::new();
    let mut k: usize = 0;
    while k < len
        invariant
            k <= len,
            len == names@.len() == ns@.len() == envs@.len() == secs@.len() == vers@.len() == flagss@.len(),
            nsv == column_views(ns@),
            namesv == column_views(names@),
            envsv == column_views(envs@),
            secsv == column_views(secs@),
            versv == column_views(vers@),
            flagsv == column_views(flagss@),
            action_views(out@) == Seq::new(k as nat, |m: int| v4_action(nsv, namesv, envsv, secsv, versv, flagsv, m)),
        decreases len - k,
    {
        let mut path = ns[k].clone();
        path.append(".");
        path.append(names[k].as_str());
        let action = Action {
            path,
            version: vers[k],
            flags: parse_flags(flagss[k].as_str()),
            sector: lowercase(secs[k].as_str()),
            envelopes: parse_csv(envs[k].as_str()),
            packet_section: PacketSection::V4,
        };
        assert(action@ == v4_action(nsv, namesv, envsv, secsv, versv, flagsv, k as int));
        let ghost before = out@;
        let ghost av = action@;
        out.push(action);
        assert(action_views(out@) =~= action_views(before).push(av));
        assert(action_views(out@) =~= Seq::new((k + 1) as nat, |m: int| v4_action(nsv, namesv, envsv, secsv, versv, flagsv, m)));
        k = k + 1;
    }
    Ok(out)
}


// ---- v3 action lists ----

pub open spec fn v3_version_of(a: Seq<Json>) -> Option<u32> {
    if a.len() == 3 && a[2] is Number {
        match a[2].spec_as_u64() {
            Some(v) => if v <= u32::MAX {
                Some(v as u32)
            } else {
                None
            },
            None => None,
        }
    } else {
        Some(1)
    }
}

/// One v3 action entry `[name, flags]` or `[name, flags, version]`; the
/// version is 1 unless a third element is a number.
pub open spec fn v3_action_of(
    ns_i: int,
    ac_i: int,
    namespace: Seq<char>,
    ac: Json,
    sector: Seq<char>,
    envs: Seq<Seq<char>>,
) -> Result<ActionView, ServiceInfoParseError> {
    match ac {
        Json::Array(a) => if a@.len() == 2 || a@.len() == 3 {
            if a@[0].spec_as_str() is None {
                Err(ServiceInfoParseError::InvalidV3Action(ns_i as usize, ac_i as usize, V3Fault::Name))
            } else if a@[1].spec_as_str() is None {
                Err(ServiceInfoParseError::InvalidV3Action(ns_i as usize, ac_i as usize, V3Fault::Flags))
            } else if v3_version_of(a@) is None {
                Err(ServiceInfoParseError::InvalidV3Action(ns_i as usize, ac_i as usize, V3Fault::Version))
            } else {
                Ok(
                    ActionView {
                        path: dotted(namespace, a@[0].spec_as_str()->0),
                        version: v3_version_of(a@)->0,
                        flags: flags_of(a@[1].spec_as_str()->0),
                        sector,
                        envelopes: envs,
                        packet_section: PacketSection::V3,
                    },
                )
            }
        } else {
            Err(ServiceInfoParseError::InvalidV3Action(ns_i as usize, ac_i as usize, V3Fault::Shape))
        },
        _ => Err(ServiceInfoParseError::InvalidV3Action(ns_i as usize, ac_i as usize, V3Fault::Shape)),
    }
}

/// The actions of namespace entry `ns_i` from element `j` on, after `acc`.
pub open spec fn v3_namespace_of(
    ns_i: int,
    entries: Seq<Json>,
    j: int,
    namespace: Seq<char>,
    sector: Seq<char>,
    envs: Seq<Seq<char>>,
    acc: Seq<ActionView>,
) -> Result<Seq<ActionView>, ServiceInfoParseError>
    decreases entries.len() - j,
{
    if j < 1 || j >= entries.len() {
        Ok(acc)
    } else {
        match v3_action_of(ns_i, j - 1, namespace, entries[j], sector, envs) {
            Err(e) => Err(e),
            Ok(a) => v3_namespace_of(ns_i, entries, j + 1, namespace, sector, envs, acc.push(a)),
        }
    }
}

/// The actions of the v3 namespace list from entry `i` on, after `acc`.
pub open spec fn v3_actions_of(
    nss: Seq<Json>,
    i: int,
    sector: Seq<char>,
    envs: Seq<Seq<char>>,
    acc: Seq<ActionView>,
) -> Result<Seq<ActionView>, ServiceInfoParseError>
    decreases nss.len() - i,
{
    if i < 0 || i >= nss.len() {
        Ok(acc)
    } else {
        match nss[i] {
            Json::Array(ns_arr) => if ns_arr@.len() > 0 {
                match ns_arr@[0].spec_as_str() {
                    None => Err(ServiceInfoParseError::MissingField(Field::Namespace)),
                    Some(namespace) => match v3_namespace_of(i, ns_arr@, 1, namespace, sector, envs, acc) {
                        Err(e) => Err(e),
                        Ok(acc2) => v3_actions_of(nss, i + 1, sector, envs, acc2),
                    },
                }
            } else {
                Err(ServiceInfoParseError::InvalidV3Namespace(i as usize))
            },
            _ => Err(ServiceInfoParseError::InvalidV3Namespace(i as usize)),
        }
    }
}

fn copy_strings(v: &Vec<String>) -> (r: Vec<String>)
    ensures
        string_views(r@) == string_views(v@),
{
    let mut out: Vec<String> = Vec::new();
    let mut i: usize = 0;
    while i < v.len()
        invariant
            i <= v@.len(),
            string_views(out@) == string_views(v@).subrange(0, i as int),
        decreases v@.len() - i,
    {
        let c = v[i].clone();
        let ghost before = out@;
        let ghost cv = c@;
        out.push(c);
        assert(string_views(out@) =~= string_views(before).push(cv));
        assert(string_views(out@) =~= string_views(v@).subrange(0, i + 1));
        i = i + 1;
    }
    assert(string_views(v@).subrange(0, v@.len() as int) =~= string_views(v@));
    out
}

fn v3_action(
    ns_i: usize,
    ac_i: usize,
    namespace: &String,
    ac: &Json,
    sector: &String,
    envs: &Vec<String>,
) -> (r: Result<Action, ServiceInfoParseError>)
    ensures
        match v3_action_of(ns_i as int, ac_i as int, namespace@, *ac, sector@, string_views(envs@)) {
            Ok(v) => r matches Ok(a) && a@ == v,
            Err(e) => r == Err::<Action, ServiceInfoParseError>(e),
        },
{
    let a = match ac {
        Json::Array(a) => a,
        _ => {
            return Err(ServiceInfoParseError::InvalidV3Action(ns_i, ac_i, V3Fault::Shape));
        },
    };
    if a.len() != 2 && a.len() != 3 {
        return Err(ServiceInfoParseError::InvalidV3Action(ns_i, ac_i, V3Fault::Shape));
    }
    let name = match a[0].as_str() {
        Some(n) => n,
        None => {
            return Err(ServiceInfoParseError::InvalidV3Action(ns_i, ac_i, V3Fault::Name));
        },
    };
    let flags = match a[1].as_str() {
        Some(f) => f,
        None => {
            return Err(ServiceInfoParseError::InvalidV3Action(ns_i, ac_i, V3Fault::Flags));
        },
    };
    let version: u32 = if a.len() == 3 && matches!(a[2], Json::Number(_)) {
        match a[2].as_u64() {
            Some(v) => if v <= u32::MAX as u64 {
                v as u32
            } else {
                return Err(ServiceInfoParseError::InvalidV3Action(ns_i, ac_i, V3Fault::Version));
            },
            None => {
                return Err(ServiceInfoParseError::InvalidV3Action(ns_i, ac_i, V3Fault::Version));
            },
        }
    } else {
        1
    };
    let mut path = namespace.clone();
    path.append(".");
    path.append(name.as_str());
    Ok(
        Action {
            path,
            version,
            flags: parse_flags(flags.as_str()),
            sector: sector.clone(),
            envelopes: copy_strings(envs),
            packet_section: PacketSection::V3,
        },
    )
}

/// Appends the actions of the v3 namespace list to `acc`.
pub fn parse_v3_actions(
    nss: &Vec<Json>,
    sector: &String,
    envs: &Vec<String>,
    acc: &mut Vec<Action>,
) -> (r: Result<(), ServiceInfoParseError>)
    ensures
        match v3_actions_of(nss@, 0, sector@, string_views(envs@), action_views(old(acc)@)) {
            Ok(v) => r is Ok && action_views(final(acc)@) == v,
            Err(e) => r == Err::<(), ServiceInfoParseError>(e),
        },
{
    let ghost whole = v3_actions_of(nss@, 0, sector@, string_views(envs@), action_views(acc@));
    let mut i: usize = 0;
    while i < nss.len()
        invariant
            i <= nss@.len(),
            whole == v3_actions_of(nss@, 0, sector@, string_views(envs@), action_views(old(acc)@)),
            whole == v3_actions_of(nss@, i as int, sector@, string_views(envs@), action_views(acc@)),
        decreases nss@.len() - i,
    {
        let ns_arr = match &nss[i] {
            Json::Array(a) => a,
            _ => {
                assert(whole == Err::<Seq<ActionView>, ServiceInfoParseError>(ServiceInfoParseError::InvalidV3Namespace(i)));
                return Err(ServiceInfoParseError::InvalidV3Namespace(i));
            },
        };
        if ns_arr.len() == 0 {
            assert(whole == Err::<Seq<ActionView>, ServiceInfoParseError>(ServiceInfoParseError::InvalidV3Namespace(i)));
            return Err(ServiceInfoParseError::InvalidV3Namespace(i));
        }
        let namespace = match ns_arr[0].as_str() {
            Some(n) => n,
            None => {
                return Err(ServiceInfoParseError::MissingField(Field::Namespace));
            },
        };
        let ghost inner = v3_namespace_of(i as int, ns_arr@, 1, namespace@, sector@, string_views(envs@), action_views(acc@));
        assert(whole == match inner {
            Err(e) => Err(e),
            Ok(acc2) => v3_actions_of(nss@, i + 1, sector@, string_views(envs@), acc2),
        });
        let mut j: usize = 1;
        while j < ns_arr.len()
            invariant
                1 <= j <= ns_arr@.len(),
                i < nss@.len(),
                whole == v3_actions_of(nss@, 0, sector@, string_views(envs@), action_views(old(acc)@)),
                whole == match inner {
                    Err(e) => Err(e),
                    Ok(acc2) => v3_actions_of(nss@, i + 1, sector@, string_views(envs@), acc2),
                },
                inner == v3_namespace_of(i as int, ns_arr@, j as int, namespace@, sector@, string_views(envs@), action_views(acc@)),
            decreases ns_arr@.len() - j,
        {
            let a = match v3_action(i, j - 1, namespace, &ns_arr[j], sector, envs) {
                Ok(a) => a,
                Err(e) => {
                    assert(inner == Err::<Seq<ActionView>, ServiceInfoParseError>(e));
                    return Err(e);
                },
            };
            let ghost before = acc@;
            let ghost av = a@;
            acc.push(a);
            assert(action_views(acc@) =~= action_views(before).push(av));
            j = j + 1;
        }
        i = i + 1;
    }
    Ok(())
}

// ---- the announcement body ----

/// The service instance that an announcement describes.
#[derive(Debug, Clone, PartialEq)]
pub struct ServiceInfo {
    pub identity: String,
    pub weight: u32,
    pub interval: u32,
    pub uri: String,
    /// When the announcement was made, as the JSON number it holds.
    pub timestamp: serde_json::Number,
}

pub struct ServiceInfoView {
    pub identity: Seq<char>,
    pub weight: u32,
    pub interval: u32,
    pub uri: Seq<char>,
    pub timestamp: serde_json::Number,
}

impl View for ServiceInfo {
    type V = ServiceInfoView;

    open spec fn view(&self) -> ServiceInfoView {
        ServiceInfoView {
            identity: self.identity@,
            weight: self.weight,
            interval: self.interval,
            uri: self.uri@,
            timestamp: self.timestamp,
        }
    }
}

/// Relies on the derived `Clone` of `serde_json::Number`, which copies it.
pub assume_specification[ <serde_json::Number as Clone>::clone ](n: &serde_json::Number) -> (r: serde_json::Number)
    ensures
        r == *n,
;

impl ServiceInfo {
    pub fn duplicate(&self) -> (r: ServiceInfo)
        ensures
            r@ == self@,
    {
        ServiceInfo {
            identity: self.identity.clone(),
            weight: self.weight,
            interval: self.interval,
            uri: self.uri.clone(),
            timestamp: self.timestamp.clone(),
        }
    }
}

/// A decoded announcement body: the instance and the actions it offers.
#[derive(Debug)]
pub struct AnnouncementBody {
    pub info: ServiceInfo,
    pub actions: Vec<Action>,
}

pub struct AnnouncementBodyView {
    pub info: ServiceInfoView,
    pub actions: Seq<ActionView>,
}

impl View for AnnouncementBody {
    type V = AnnouncementBodyView;

    open spec fn view(&self) -> AnnouncementBodyView {
        AnnouncementBodyView { info: self.info@, actions: action_views(self.actions@) }
    }
}

/// The envelope names among the elements of `envelopes_and_v4actions`.
pub open spec fn envelope_names(items: Seq<Json>) -> Seq<Seq<char>>
    decreases items.len(),
{
    if items.len() == 0 {
        Seq::empty()
    } else {
        let rest = envelope_names(items.drop_last());
        match items.last() {
            Json::Str(s) => rest.push(s@),
            _ => rest,
        }
    }
}

/// The actions of the v4 objects among `items` from `i` on, after `acc`.
pub open spec fn v4_all_of(items: Seq<Json>, i: int, acc: Seq<ActionView>) -> Result<Seq<ActionView>, ServiceInfoParseError>
    decreases items.len() - i,
{
    if i < 0 || i >= items.len() {
        Ok(acc)
    } else {
        match items[i] {
            Json::Object(ms) => match v4_actions_of(ms@) {
                Err(e) => Err(e),
                Ok(a) => v4_all_of(items, i + 1, acc + a),
            },
            _ => v4_all_of(items, i + 1, acc),
        }
    }
}

pub open spec fn u32_field(j: Json, f: Field) -> Result<u32, ServiceInfoParseError> {
    match j.spec_as_u64() {
        None => Err(ServiceInfoParseError::MissingField(f)),
        Some(v) => if v <= u32::MAX {
            Ok(v as u32)
        } else {
            Err(ServiceInfoParseError::InvalidField(f))
        },
    }
}

/// The body of an announcement: the nine-element root array `[version,
/// identity, sector, weight, interval, uri, envelopes_and_v4actions,
/// v3_actions, timestamp]`; the v4 actions come first, then the v3 ones.
pub open spec fn body_of_json(j: Json) -> Result<AnnouncementBodyView, ServiceInfoParseError> {
    match j {
        Json::Array(arr) => {
            let a = arr@;
            if a.len() != 9 {
                Err(ServiceInfoParseError::InvalidRootArray)
            } else if a[0].spec_as_u64() is None {
                Err(ServiceInfoParseError::MissingField(Field::Version))
            } else if a[1].spec_as_str() is None {
                Err(ServiceInfoParseError::MissingField(Field::Identity))
            } else if a[2].spec_as_str() is None {
                Err(ServiceInfoParseError::MissingField(Field::Sector))
            } else if u32_field(a[3], Field::Weight) is Err {
                Err(u32_field(a[3], Field::Weight)->Err_0)
            } else if u32_field(a[4], Field::Interval) is Err {
                Err(u32_field(a[4], Field::Interval)->Err_0)
            } else if a[5].spec_as_str() is None {
                Err(ServiceInfoParseError::MissingField(Field::Uri))
            } else if !(a[6] is Array) {
                Err(ServiceInfoParseError::MissingField(Field::EnvelopesAndV4Actions))
            } else if !(a[7] is Array) {
                Err(ServiceInfoParseError::MissingField(Field::V3Actions))
            } else if !(a[8] is Number) {
                Err(ServiceInfoParseError::MissingField(Field::Timestamp))
            } else {
                let items = a[6]->Array_0@;
                match v4_all_of(items, 0, Seq::empty()) {
                    Err(e) => Err(e),
                    Ok(v4) => match v3_actions_of(
                        a[7]->Array_0@,
                        0,
                        a[2].spec_as_str()->0,
                        envelope_names(items),
                        v4,
                    ) {
                        Err(e) => Err(e),
                        Ok(all) => Ok(
                            AnnouncementBodyView {
                                info: ServiceInfoView {
                                    identity: a[1].spec_as_str()->0,
                                    weight: u32_field(a[3], Field::Weight)->Ok_0,
                                    interval: u32_field(a[4], Field::Interval)->Ok_0,
                                    uri: a[5].spec_as_str()->0,
                                    timestamp: a[8]->Number_0.number(),
                                },
                                actions: all,
                            },
                        ),
                    },
                }
            }
        },
        _ => Err(ServiceInfoParseError::ExpectedJsonArray),
    }
}

fn u32_from(j: &Json, f: Field) -> (r: Result<u32, ServiceInfoParseError>)
    ensures
        match u32_field(*j, f) {
            Ok(v) => r == Ok::<u32, ServiceInfoParseError>(v),
            Err(e) => r == Err::<u32, ServiceInfoParseError>(e),
        },
{
    match j.as_u64() {
        None => Err(ServiceInfoParseError::MissingField(f)),
        Some(v) => if v <= u32::MAX as u64 {
            Ok(v as u32)
        } else {
            Err(ServiceInfoParseError::InvalidField(f))
        },
    }
}

impl AnnouncementBody {
    /// Decodes the JSON value of an announcement body.
    pub fn from_json(j: &Json) -> (r: Result<AnnouncementBody, ServiceInfoParseError>)
        ensures
            match body_of_json(*j) {
                Ok(v) => r matches Ok(b) && b@ == v,
                Err(e) => r == Err::<AnnouncementBody, ServiceInfoParseError>(e),
            },
    {
        let a = match j {
            Json::Array(a) => a,
            _ => {
                return Err(ServiceInfoParseError::ExpectedJsonArray);
            },
        };
        if a.len() != 9 {
            return Err(ServiceInfoParseError::InvalidRootArray);
        }
        if a[0].as_u64().is_none() {
            return Err(ServiceInfoParseError::MissingField(Field::Version));
        }
        let identity = match a[1].as_str() {
            Some(s) => s.clone(),
            None => {
                return Err(ServiceInfoParseError::MissingField(Field::Identity));
            },
        };
        let sector = match a[2].as_str() {
            Some(s) => s,
            None => {
                return Err(ServiceInfoParseError::MissingField(Field::Sector));
            },
        };
        let weight = u32_from(&a[3], Field::Weight)?;
        let interval = u32_from(&a[4], Field::Interval)?;
        let uri = match a[5].as_str() {
            Some(s) => s.clone(),
            None => {
                return Err(ServiceInfoParseError::MissingField(Field::Uri));
            },
        };
        let items = match &a[6] {
            Json::Array(items) => items,
            _ => {
                return Err(ServiceInfoParseError::MissingField(Field::EnvelopesAndV4Actions));
            },
        };
        let nss = match &a[7] {
            Json::Array(nss) => nss,
            _ => {
                return Err(ServiceInfoParseError::MissingField(Field::V3Actions));
            },
        };
        let timestamp = match &a[8] {
            Json::Number(n) => n.raw().clone(),
            _ => {
                return Err(ServiceInfoParseError::MissingField(Field::Timestamp));
            },
        };
        // envelope names, in order
        let mut envs: Vec<String> = Vec::new();
        let mut i: usize = 0;
        while i < items.len()
            invariant
                i <= items@.len(),
                string_views(envs@) == envelope_names(items@.subrange(0, i as int)),
            decreases items@.len() - i,
        {
            let ghost before = envs@;
            assert(items@.subrange(0, i + 1).drop_last() =~= items@.subrange(0, i as int));
            match &items[i] {
                Json::Str(s) => {
                    let c = s.clone();
                    let ghost cv = c@;
                    envs.push(c);
                    assert(string_views(envs@) =~= string_views(before).push(cv));
                },
                _ => {},
            }
            i = i + 1;
        }
        assert(items@.subrange(0, items@.len() as int) =~= items@);
        // the v4 objects
        let ghost whole4 = v4_all_of(items@, 0, Seq::empty());
        let mut actions: Vec<Action> = Vec::new();
        let mut i: usize = 0;
        assert(action_views(actions@) =~= Seq::<ActionView>::empty());
        assert(body_of_json(*j) == match whole4 {
            Err(e) => Err(e),
            Ok(v4) => match v3_actions_of(nss@, 0, sector@, string_views(envs@), v4) {
                Err(e) => Err(e),
                Ok(all) => Ok(
                    AnnouncementBodyView {
                        info: ServiceInfoView { identity: identity@, weight, interval, uri: uri@, timestamp },
                        actions: all,
                    },
                ),
            },
        });
        while i < items.len()
            invariant
                i <= items@.len(),
                body_of_json(*j) == match whole4 {
                    Err(e) => Err(e),
                    Ok(v4) => match v3_actions_of(nss@, 0, sector@, string_views(envs@), v4) {
                        Err(e) => Err(e),
                        Ok(all) => Ok(
                            AnnouncementBodyView {
                                info: ServiceInfoView { identity: identity@, weight, interval, uri: uri@, timestamp },
                                actions: all,
                            },
                        ),
                    },
                },
                whole4 == v4_all_of(items@, i as int, action_views(actions@)),
            decreases items@.len() - i,
        {
            match &items[i] {
                Json::Object(ms) => {
                    let found = match parse_v4_actions(ms) {
                        Ok(f) => f,
                        Err(e) => {
                            assert(whole4 == Err::<Seq<ActionView>, ServiceInfoParseError>(e));
                            return Err(e);
                        },
                    };
                    let ghost before = actions@;
                    let mut k: usize = 0;
                    let mut found = found;
                    let ghost fv = action_views(found@);
                    while k < found.len()
                        invariant
                            k <= found@.len(),
                            fv == action_views(found@),
                            action_views(actions@) == action_views(before) + fv.subrange(0, k as int),
                        decreases found@.len() - k,
                    {
                        let ghost pre = actions@;
                        let act = copy_action(&found[k]);
                        let ghost av = act@;
                        actions.push(act);
                        assert(action_views(actions@) =~= action_views(pre).push(av));
                        assert(action_views(actions@) =~= action_views(before) + fv.subrange(0, k + 1));
                        k = k + 1;
                    }
                    assert(fv.subrange(0, found@.len() as int) =~= fv);
                },
                _ => {},
            }
            i = i + 1;
        }
        parse_v3_actions(nss, sector, &envs, &mut actions)?;
        Ok(AnnouncementBody { info: ServiceInfo { identity, weight, interval, uri, timestamp }, actions })
    }

    /// Parses the JSON text of an announcement body.
    pub fn parse(text: &str) -> (r: Result<AnnouncementBody, ServiceInfoParseError>)
        ensures
            match json_of_text(text@) {
                None => r matches Err(ServiceInfoParseError::JsonError(_)),
                Some(j) => match body_of_json(j) {
                    Ok(v) => r matches Ok(b) && b@ == v,
                    Err(e) => r == Err::<AnnouncementBody, ServiceInfoParseError>(e),
                },
            },
    {
        match parse_json(text) {
            Ok(j) => AnnouncementBody::from_json(&j),
            Err(e) => Err(ServiceInfoParseError::JsonError(e)),
        }
    }
}

fn copy_flags(v: &Vec<Flag>) -> (r: Vec<Flag>)
    ensures
        flag_views(r@) == flag_views(v@),
{
    let mut out: Vec<Flag> = Vec::new();
    let mut i: usize = 0;
    while i < v.len()
        invariant
            i <= v@.len(),
            flag_views(out@) == flag_views(v@).subrange(0, i as int),
        decreases v@.len() - i,
    {
        let c = match &v[i] {
            Flag::NoAuth => Flag::NoAuth,
            Flag::Timeout(t) => Flag::Timeout(*t),
            Flag::Other(s) => Flag::Other(s.clone()),
            Flag::CrudOp(c) => Flag::CrudOp(*c),
        };
        let ghost before = out@;
        let ghost cv = c@;
        out.push(c);
        assert(flag_views(out@) =~= flag_views(before).push(cv));
        assert(flag_views(out@) =~= flag_views(v@).subrange(0, i + 1));
        i = i + 1;
    }
    assert(flag_views(v@).subrange(0, v@.len() as int) =~= flag_views(v@));
    out
}

/// A copy of an action.
pub fn copy_action(a: &Action) -> (r: Action)
    ensures
        r@ == a@,
{
    Action {
        path: a.path.clone(),
        version: a.version,
        flags: copy_flags(&a.flags),
        sector: a.sector.clone(),
        envelopes: copy_strings(&a.envelopes),
        packet_section: a.packet_section,
    }
}


/// A v4 action object decodes only when every column expands to exactly as
/// many entries as `acname`: no column is cut short or padded, and there is
/// one action per name.
pub proof fn lemma_rle_lengths(ms: Seq<(String, Json)>)
    ensures
        v4_actions_of(ms) is Ok ==> {
            let cap = MAX_ACTIONS_PER_RECORD as nat;
            let n = column_of::<String>(ms, Field::Acname, true, 0, cap)->Ok_0.len();
            &&& v4_actions_of(ms)->Ok_0.len() == n
            &&& column_of::<String>(ms, Field::Acns, true, 0, cap)->Ok_0.len() == n
            &&& column_of::<String>(ms, Field::Acenv, true, 0, cap)->Ok_0.len() == n
            &&& column_of::<String>(ms, Field::Acsec, true, 0, cap)->Ok_0.len() == n
            &&& column_of::<u32>(ms, Field::Accompat, false, n, n)->Ok_0.len() == n
            &&& column_of::<u32>(ms, Field::Acver, false, n, n)->Ok_0.len() == n
            &&& column_of::<String>(ms, Field::Acflag, false, n, n)->Ok_0.len() == n
        },
{
}

} // verus!
