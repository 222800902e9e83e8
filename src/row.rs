//! The fixed schema and the row codec.
use vstd::prelude::*;
use vstd::string::*;
use vstd::utf8::*;

verus! {

/// Size in bytes of one page of the backing file.
pub const PAGE_SIZE: usize = 4096;

/// Width of the decimal-text `id` column.
pub const ID_SIZE: usize = 10;

/// Width of the `username` column.
pub const USERNAME_SIZE: usize = 32;

/// Width of the `email` column.
pub const EMAIL_SIZE: usize = 255;

/// Width of one encoded row.
pub const ROW_SIZE: usize = ID_SIZE + USERNAME_SIZE + EMAIL_SIZE;

/// Number of row slots held by one page.
pub const ROWS_PER_PAGE: usize = PAGE_SIZE / ROW_SIZE;

/// The sizes that follow from the column widths.
pub proof fn lemma_sizes()
    ensures
        ROW_SIZE == 297,
        ROWS_PER_PAGE == 13,
{
    assert(ROW_SIZE == 297);
    assert(ROWS_PER_PAGE == 13);
}

/// What went wrong in the codec or the page store.
#[derive(Debug, Clone, Copy, PartialEq, Eq, Structural)]
pub enum ErrorKind {
    /// A field value is wider than its column.
    EncodingOverflow,
    /// The slot was never written: its first byte is zero.
    EmptyRow,
    /// The `id` column does not hold a decimal `u32`.
    MalformedInteger,
    /// A text column does not hold UTF-8.
    MalformedText,
    /// The requested page is not (entirely) in the file.
    ShortRead,
    /// The page lies beyond what the address space can hold.
    OutOfSpace,
}

#[derive(Debug, Clone, Copy, PartialEq, Eq, Structural)]
pub struct Error {
    pub kind: ErrorKind,
}

#[derive(Debug, Clone, Copy, PartialEq, Eq, Structural)]
enum DataType {
    Text(usize),
    Integer,
}

impl DataType {
    spec fn spec_size(self) -> nat {
        match self {
            DataType::Text(n) => n as nat,
            DataType::Integer => ID_SIZE as nat,
        }
    }

    fn size(&self) -> (r: usize)
        ensures
            r == self.spec_size(),
    {
        match self {
            DataType::Text(n) => *n,
            DataType::Integer => ID_SIZE,
        }
    }
}


/// The columns of the one record shape.
#[derive(Debug, Clone, Copy, PartialEq, Eq, Structural)]
enum Column {
    Id,
    Username,
    Email,
}

/// The schema: the type and width of each column, and what follows from them.
#[derive(Debug)]
pub struct Definition {
    id: DataType,
    username: DataType,
    email: DataType,
    pub row_size: usize,
    pub row_per_page: usize,
}

impl Definition {
    /// The schema holds the fixed column types, and its derived sizes agree with them.
    pub closed spec fn wf(&self) -> bool {
        &&& self.id == DataType::Integer
        &&& self.username == DataType::Text(USERNAME_SIZE)
        &&& self.email == DataType::Text(EMAIL_SIZE)
        &&& self.row_size == ROW_SIZE
        &&& self.row_per_page == ROWS_PER_PAGE
    }

    closed spec fn spec_size_of(&self, c: Column) -> nat {
        match c {
            Column::Id => self.id.spec_size(),
            Column::Username => self.username.spec_size(),
            Column::Email => self.email.spec_size(),
        }
    }

    pub fn new() -> (def: Self)
        ensures
            def.wf(),
    {
        let id = DataType::Integer;
        let username = DataType::Text(USERNAME_SIZE);
        let email = DataType::Text(EMAIL_SIZE);
        let row_size = id.size() + username.size() + email.size();
        let row_per_page = PAGE_SIZE / row_size;
        Definition { id, username, email, row_size, row_per_page }
    }

    /// Width of one encoded row.
    pub fn row_size(&self) -> (r: usize)
        requires
            self.wf(),
        ensures
            r == ROW_SIZE,
    {
        self.row_size
    }

    /// Number of row slots in one page.
    pub fn row_per_page(&self) -> (r: usize)
        requires
            self.wf(),
        ensures
            r == ROWS_PER_PAGE,
    {
        self.row_per_page
    }

    fn size_of(&self, c: Column) -> (r: usize)
        requires
            self.wf(),
        ensures
            r == self.spec_size_of(c),
            c == Column::Id ==> r == ID_SIZE,
            c == Column::Username ==> r == USERNAME_SIZE,
            c == Column::Email ==> r == EMAIL_SIZE,
    {
        match c {
            Column::Id => self.id.size(),
            Column::Username => self.username.size(),
            Column::Email => self.email.size(),
        }
    }
}

// ---------------------------------------------------------------------------
// Decimal text of the `id` column

pub open spec fn is_digit(b: u8) -> bool {
    48 <= b <= 57
}

/// The decimal digits of `n`, most significant first, without leading zeros.
pub open spec fn decimal(n: nat) -> Seq<u8>
    decreases n,
{
    if n < 10 {
        seq![(n + 48) as u8]
    } else {
        decimal(n / 10).push((n % 10 + 48) as u8)
    }
}

/// The number that a string of digits denotes.
pub open spec fn digits_value(s: Seq<u8>) -> nat
    decreases s.len(),
{
    if s.len() == 0 {
        0
    } else {
        digits_value(s.drop_last()) * 10 + (s.last() - 48) as nat
    }
}

/// A non-empty string of decimal digits.
pub open spec fn is_decimal(s: Seq<u8>) -> bool {
    s.len() > 0 && forall|i: int| 0 <= i < s.len() ==> is_digit(#[trigger] s[i])
}

/// The decimal text of an `id`: a `u32` value, with no sign.
pub open spec fn is_id_text(s: Seq<u8>) -> bool {
    is_decimal(s) && digits_value(s) <= u32::MAX
}

proof fn lemma_decimal(n: nat)
    ensures
        is_decimal(decimal(n)),
        digits_value(decimal(n)) == n,
        n < 10 ==> decimal(n).len() == 1,
        n >= 10 ==> decimal(n).len() == decimal(n / 10).len() + 1,
    decreases n,
{
    if n >= 10 {
        lemma_decimal(n / 10);
        let d = decimal(n);
        assert(d.drop_last() == decimal(n / 10));
        assert(d.last() == (n % 10 + 48) as u8);
        assert(n == (n / 10) * 10 + n % 10);
        assert forall|i: int| 0 <= i < d.len() implies is_digit(#[trigger] d[i]) by {
            if i < d.len() - 1 {
                assert(d[i] == decimal(n / 10)[i]);
            }
        }
    } else {
        let d = decimal(n);
        assert(d.drop_last() =~= Seq::<u8>::empty());
        assert(digits_value(d.drop_last()) == 0);
    }
}

proof fn lemma_decimal_len(n: nat)
    requires
        n <= u32::MAX,
    ensures
        decimal(n).len() <= ID_SIZE,
{
    lemma_decimal(n);
    lemma_decimal(n / 10);
    lemma_decimal(n / 100);
    lemma_decimal(n / 1000);
    lemma_decimal(n / 10000);
    lemma_decimal(n / 100000);
    lemma_decimal(n / 1000000);
    lemma_decimal(n / 10000000);
    lemma_decimal(n / 100000000);
    lemma_decimal(n / 1000000000);
    assert(n / 10 / 10 == n / 100);
    assert(n / 100 / 10 == n / 1000);
    assert(n / 1000 / 10 == n / 10000);
    assert(n / 10000 / 10 == n / 100000);
    assert(n / 100000 / 10 == n / 1000000);
    assert(n / 1000000 / 10 == n / 10000000);
    assert(n / 10000000 / 10 == n / 100000000);
    assert(n / 100000000 / 10 == n / 1000000000);
}

/// The decimal text of `n`.
fn decimal_digits(n: u32) -> (r: Vec<u8>)
    ensures
        r@ == decimal(n as nat),
{
    let mut digits: Vec<u8> = Vec::new();
    let mut m: u32 = n;
    while m >= 10
        invariant
            decimal(n as nat) == decimal(m as nat) + digits@,
        decreases m,
    {
        let d: u8 = (m % 10) as u8 + 48;
        let ghost old_digits = digits@;
        digits.insert(0, d);
        assert(decimal(m as nat) == decimal((m / 10) as nat).push(d));
        assert(decimal(m as nat) + old_digits =~= decimal((m / 10) as nat) + digits@);
        m = m / 10;
    }
    digits.insert(0, m as u8 + 48);
    assert(decimal(n as nat) =~= digits@);
    digits
}

proof fn lemma_digits_value_prefix(s: Seq<u8>, i: int)
    requires
        0 <= i < s.len(),
    ensures
        digits_value(s.subrange(0, i + 1)) == digits_value(s.subrange(0, i)) * 10 + (s[i] - 48) as nat,
{
    assert(s.subrange(0, i + 1).drop_last() =~= s.subrange(0, i));
}

proof fn lemma_digits_value_grows(s: Seq<u8>, i: int)
    requires
        0 <= i <= s.len(),
        is_decimal(s),
    ensures
        digits_value(s.subrange(0, i)) <= digits_value(s),
    decreases s.len() - i,
{
    if i < s.len() {
        lemma_digits_value_prefix(s, i);
        assert(is_digit(s[i]));
        lemma_digits_value_grows(s, i + 1);
    } else {
        assert(s.subrange(0, i) =~= s);
    }
}

/// Reads the decimal text of an `id`; `None` where the bytes are not one.
fn parse_decimal(s: &Vec<u8>) -> (r: Option<u32>)
    ensures
        r == (if is_id_text(s@) { Some(digits_value(s@) as u32) } else { None::<u32> }),
{
    if s.len() == 0 {
        return None;
    }
    let mut acc: u64 = 0;
    let mut i: usize = 0;
    while i < s.len()
        invariant
            0 <= i <= s@.len(),
            s@.len() > 0,
            acc == digits_value(s@.subrange(0, i as int)),
            acc <= u32::MAX,
            forall|j: int| 0 <= j < i ==> is_digit(#[trigger] s@[j]),
        decreases s@.len() - i,
    {
        let b = s[i];
        if b < 48 || b > 57 {
            return None;
        }
        proof {
            lemma_digits_value_prefix(s@, i as int);
        }
        let next: u64 = acc * 10 + (b - 48) as u64;
        if next > u32::MAX as u64 {
            proof {
                if is_decimal(s@) {
                    lemma_digits_value_grows(s@, i + 1);
                }
            }
            return None;
        }
        acc = next;
        i = i + 1;
    }
    assert(s@.subrange(0, i as int) =~= s@);
    Some(acc as u32)
}


// ---------------------------------------------------------------------------
// Padding

/// `n` zero bytes.
pub open spec fn zeros(n: nat) -> Seq<u8> {
    Seq::new(n, |i: int| 0u8)
}

/// `s` followed by zero bytes up to `width`.
pub open spec fn pad(s: Seq<u8>, width: nat) -> Seq<u8> {
    s + zeros((width - s.len()) as nat)
}

/// `s` without its longest suffix of zero bytes.
pub open spec fn trim_zeros(s: Seq<u8>) -> Seq<u8>
    decreases s.len(),
{
    if s.len() > 0 && s.last() == 0 {
        trim_zeros(s.drop_last())
    } else {
        s
    }
}

proof fn lemma_trim_prefix(s: Seq<u8>, end: int)
    requires
        0 <= end < s.len(),
        s[end] == 0,
    ensures
        trim_zeros(s.subrange(0, end + 1)) == trim_zeros(s.subrange(0, end)),
{
    assert(s.subrange(0, end + 1).drop_last() =~= s.subrange(0, end));
}

proof fn lemma_trim_pad(s: Seq<u8>, width: nat)
    requires
        s.len() <= width,
        s.len() == 0 || s.last() != 0,
    ensures
        trim_zeros(pad(s, width)) == s,
    decreases width - s.len(),
{
    if width == s.len() {
        assert(pad(s, width) =~= s);
    } else {
        let w1 = (width - 1) as nat;
        lemma_trim_pad(s, w1);
        assert(pad(s, width).drop_last() =~= pad(s, w1));
    }
}

/// `v[start..end]` as a vector of its own.
pub(crate) fn copy_range(v: &Vec<u8>, start: usize, end: usize) -> (r: Vec<u8>)
    requires
        start <= end <= v@.len(),
    ensures
        r@ == v@.subrange(start as int, end as int),
{
    let mut r: Vec<u8> = Vec::new();
    let mut i: usize = start;
    while i < end
        invariant
            start <= i <= end <= v@.len(),
            r@ == v@.subrange(start as int, i as int),
        decreases end - i,
    {
        r.push(v[i]);
        i = i + 1;
        assert(r@ =~= v@.subrange(start as int, i as int));
    }
    r
}

/// `b` followed by zero bytes up to `width`.
fn pad_field(b: &[u8], width: usize) -> (r: Vec<u8>)
    requires
        b@.len() <= width,
    ensures
        r@ == pad(b@, width as nat),
{
    let mut r: Vec<u8> = Vec::new();
    let mut i: usize = 0;
    while i < b.len()
        invariant
            0 <= i <= b@.len(),
            r@ == b@.subrange(0, i as int),
        decreases b@.len() - i,
    {
        r.push(b[i]);
        i = i + 1;
        assert(r@ =~= b@.subrange(0, i as int));
    }
    while i < width
        invariant
            b@.len() <= i <= width,
            r@ == pad(b@, i as nat),
        decreases width - i,
    {
        r.push(0);
        i = i + 1;
        assert(r@ =~= pad(b@, i as nat));
    }
    r
}

// ---------------------------------------------------------------------------
// The row model

/// The values of one record.
pub struct RowValue {
    pub id: u32,
    pub username: Seq<char>,
    pub email: Seq<char>,
}

/// The fields fit their columns.
pub open spec fn fits(username: Seq<char>, email: Seq<char>) -> bool {
    &&& encode_utf8(username).len() <= USERNAME_SIZE
    &&& encode_utf8(email).len() <= EMAIL_SIZE
}

/// The on-disk form of a record: each field padded with zero bytes to its column.
pub open spec fn encode_row(id: u32, username: Seq<char>, email: Seq<char>) -> Seq<u8> {
    pad(decimal(id as nat), ID_SIZE as nat) + pad(encode_utf8(username), USERNAME_SIZE as nat)
        + pad(encode_utf8(email), EMAIL_SIZE as nat)
}

/// The `id` window of an encoded row.
pub open spec fn id_window(b: Seq<u8>) -> Seq<u8> {
    b.subrange(0, ID_SIZE as int)
}

/// The `username` window of an encoded row.
pub open spec fn username_window(b: Seq<u8>) -> Seq<u8> {
    b.subrange(ID_SIZE as int, (ID_SIZE + USERNAME_SIZE) as int)
}

/// The `email` window of an encoded row.
pub open spec fn email_window(b: Seq<u8>) -> Seq<u8> {
    b.subrange((ID_SIZE + USERNAME_SIZE) as int, ROW_SIZE as int)
}

/// What a row slot holds: a record, or why it holds none.
pub open spec fn decode_row(b: Seq<u8>) -> Result<RowValue, ErrorKind> {
    let id = trim_zeros(id_window(b));
    let username = trim_zeros(username_window(b));
    let email = trim_zeros(email_window(b));
    if b[0] == 0 {
        Err(ErrorKind::EmptyRow)
    } else if !is_id_text(id) {
        Err(ErrorKind::MalformedInteger)
    } else if !valid_utf8(username) || !valid_utf8(email) {
        Err(ErrorKind::MalformedText)
    } else {
        Ok(
            RowValue {
                id: digits_value(id) as u32,
                username: decode_utf8(username),
                email: decode_utf8(email),
            },
        )
    }
}

/// `s` does not end in a zero byte, which decoding would take for padding.
pub open spec fn no_trailing_zero(s: Seq<u8>) -> bool {
    s.len() == 0 || s.last() != 0
}

/// Decoding an encoded record gives the record back, for any `id` and for text
/// fields that fit their columns and whose UTF-8 does not end in a zero byte.
pub proof fn lemma_decode_encode(id: u32, username: Seq<char>, email: Seq<char>)
    requires
        fits(username, email),
        no_trailing_zero(encode_utf8(username)),
        no_trailing_zero(encode_utf8(email)),
    ensures
        encode_row(id, username, email).len() == ROW_SIZE,
        decode_row(encode_row(id, username, email)) == Ok::<RowValue, ErrorKind>(
            RowValue { id, username, email },
        ),
{
    let digits = decimal(id as nat);
    let u = encode_utf8(username);
    let e = encode_utf8(email);
    lemma_decimal(id as nat);
    lemma_decimal_len(id as nat);
    let b = encode_row(id, username, email);
    assert(id_window(b) =~= pad(digits, ID_SIZE as nat));
    assert(username_window(b) =~= pad(u, USERNAME_SIZE as nat));
    assert(email_window(b) =~= pad(e, EMAIL_SIZE as nat));
    assert(is_digit(digits[0]));
    assert(is_digit(digits.last()));
    lemma_trim_pad(digits, ID_SIZE as nat);
    lemma_trim_pad(u, USERNAME_SIZE as nat);
    lemma_trim_pad(e, EMAIL_SIZE as nat);
    encode_utf8_valid_utf8(username);
    encode_utf8_valid_utf8(email);
    encode_utf8_decode_utf8(username);
    encode_utf8_decode_utf8(email);
    assert(b[0] == digits[0]);
}

/// Decoding an encoded record gives the record back, for any `id` and for text
/// fields that fit their columns and whose UTF-8 holds no zero byte; the
/// encoding is one row wide.
pub proof fn lemma_round_trip(id: u32, username: Seq<char>, email: Seq<char>)
    requires
        fits(username, email),
        forall|i: int|
            0 <= i < encode_utf8(username).len() ==> #[trigger] encode_utf8(username)[i] != 0,
        forall|i: int| 0 <= i < encode_utf8(email).len() ==> #[trigger] encode_utf8(email)[i] != 0,
    ensures
        encode_row(id, username, email).len() == ROW_SIZE,
        decode_row(encode_row(id, username, email)) == Ok::<RowValue, ErrorKind>(
            RowValue { id, username, email },
        ),
{
    let u = encode_utf8(username);
    let e = encode_utf8(email);
    if u.len() > 0 {
        assert(u.last() == u[u.len() - 1]);
    }
    if e.len() > 0 {
        assert(e.last() == e[e.len() - 1]);
    }
    lemma_decode_encode(id, username, email);
}

/// Relies on `String::from_utf8`: it succeeds exactly on well-formed UTF-8, and the
/// string then holds the characters that the bytes encode.
#[verifier::external_body]
fn utf8_string(bytes: Vec<u8>) -> (r: Option<String>)
    ensures
        r.is_some() == valid_utf8(bytes@),
        r matches Some(s) ==> s@ == decode_utf8(bytes@),
{
    String::from_utf8(bytes).ok()
}

/// One record, with the bytes it was encoded to or decoded from.
#[derive(Debug)]
pub struct Row {
    pub data: Vec<u8>,
    id: u32,
    username: String,
    email: String,
}

impl View for Row {
    type V = RowValue;

    closed spec fn view(&self) -> RowValue {
        RowValue { id: self.id, username: self.username@, email: self.email@ }
    }
}

/// Two rows are equal when they hold the same values, whatever their bytes.
impl PartialEq for Row {
    fn eq(&self, other: &Row) -> (r: bool) {
        self.id == other.id && self.username == other.username && self.email == other.email
    }
}

impl vstd::std_specs::cmp::PartialEqSpecImpl for Row {
    open spec fn obeys_eq_spec() -> bool {
        true
    }

    open spec fn eq_spec(&self, other: &Row) -> bool {
        self@ == other@
    }
}

impl Row {
    /// The bytes of the row.
    pub closed spec fn bytes(&self) -> Seq<u8> {
        self.data@
    }

    /// The bytes of the row.
    pub fn as_bytes(&self) -> (r: &Vec<u8>)
        ensures
            r@ == self.bytes(),
    {
        &self.data
    }

    pub fn id(&self) -> (r: u32)
        ensures
            r == self@.id,
    {
        self.id
    }

    pub fn username(&self) -> (r: &String)
        ensures
            r@ == self@.username,
    {
        &self.username
    }

    pub fn email(&self) -> (r: &String)
        ensures
            r@ == self@.email,
    {
        &self.email
    }

    pub fn truncate_tail(source: Vec<u8>) -> (r: Vec<u8>)
        ensures
            r@ == trim_zeros(source@),
    {
        let mut end: usize = source.len();
        assert(source@.subrange(0, end as int) =~= source@);
        while end > 0 && source[end - 1] == 0
            invariant
                0 <= end <= source@.len(),
                trim_zeros(source@) == trim_zeros(source@.subrange(0, end as int)),
            decreases end,
        {
            proof {
                lemma_trim_prefix(source@, end - 1);
            }
            end = end - 1;
        }
        assert(trim_zeros(source@.subrange(0, end as int)) == source@.subrange(0, end as int));
        copy_range(&source, 0, end)
    }

    /// Encodes a record; fails where a field is wider than its column.
    pub fn ser(id: u32, username: String, email: String, def: &Definition) -> (r: Result<
        Row,
        Error,
    >)
        requires
            def.wf(),
        ensures
            match r {
                Ok(row) => {
                    &&& fits(username@, email@)
                    &&& row@ == (RowValue { id, username: username@, email: email@ })
                    &&& row.bytes() == encode_row(id, username@, email@)
                    &&& row.bytes().len() == ROW_SIZE
                },
                Err(e) => !fits(username@, email@) && e.kind == ErrorKind::EncodingOverflow,
            },
    {
        let username_bytes = username.as_str().as_bytes();
        let email_bytes = email.as_str().as_bytes();
        if username_bytes.len() > def.size_of(Column::Username) || email_bytes.len()
            > def.size_of(Column::Email) {
            return Err(Error { kind: ErrorKind::EncodingOverflow });
        }
        let id_text = decimal_digits(id);
        proof {
            lemma_decimal_len(id as nat);
        }
        let mut data = pad_field(id_text.as_slice(), def.size_of(Column::Id));
        let mut username_field = pad_field(username_bytes, def.size_of(Column::Username));
        let mut email_field = pad_field(email_bytes, def.size_of(Column::Email));
        data.append(&mut username_field);
        data.append(&mut email_field);
        Ok(Row { data, id, username, email })
    }

    /// Decodes the bytes of one row slot.
    pub fn de(source: &Vec<u8>, def: &Definition) -> (r: Result<Row, Error>)
        requires
            def.wf(),
            source@.len() == ROW_SIZE,
        ensures
            match r {
                Ok(row) => decode_row(source@) == Ok::<RowValue, ErrorKind>(row@) && row.bytes()
                    == source@,
                Err(e) => decode_row(source@) == Err::<RowValue, ErrorKind>(e.kind),
            },
    {
        let id_end = def.size_of(Column::Id);
        let username_end = id_end + def.size_of(Column::Username);
        if source[0] == 0 {
            return Err(Error { kind: ErrorKind::EmptyRow });
        }
        let id_text = Row::truncate_tail(copy_range(source, 0, id_end));
        let id = match parse_decimal(&id_text) {
            Some(v) => v,
            None => {
                return Err(Error { kind: ErrorKind::MalformedInteger });
            },
        };
        let username_bytes = Row::truncate_tail(copy_range(source, id_end, username_end));
        let email_bytes = Row::truncate_tail(copy_range(source, username_end, source.len()));
        let username = match utf8_string(username_bytes) {
            Some(s) => s,
            None => {
                return Err(Error { kind: ErrorKind::MalformedText });
            },
        };
        let email = match utf8_string(email_bytes) {
            Some(s) => s,
            None => {
                return Err(Error { kind: ErrorKind::MalformedText });
            },
        };
        let data = copy_range(source, 0, source.len());
        assert(data@ =~= source@);
        Ok(Row { data, id, username, email })
    }
}

} // verus!
