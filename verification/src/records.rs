//! Reading the input format.
//!
//! The input is CSV-like text: a header line, then one record per line, its
//! fields separated by commas and padded freely with blanks. A record names
//! a kind (`deposit`, `withdrawal`, `dispute`, `resolve`, `chargeback`,
//! case-insensitive), a client id, a transaction id and — for money
//! operations only — an amount. The functions here cut a line into fields,
//! read each field, assemble the [`TransactionOrder`], and feed whole inputs
//! to the processor; a malformed line is dropped at this boundary and never
//! reaches it.

use vstd::prelude::*;

verus! {

use crate::amounts::{all_digits, digits_val, is_ascii_digit};
use crate::clients::{Client, ClientAccounts, ClientId};
use crate::transactions::{
    ClientClaim, ClientClaimKind, MoneyOperation, MoneyOperationsRegister, OperationKind,
    TransactionError, TransactionId, TransactionOrder,
};

/// The five record kinds of the input format.
#[derive(Copy, Clone, Debug, PartialEq, Eq, Structural)]
pub enum TransactionKind {
    Deposit,
    Withdrawal,
    Resolve,
    Dispute,
    Chargeback,
}

/// Every way a record can fail outside the processor proper.
#[derive(Copy, Clone, Debug, PartialEq, Eq, Structural)]
pub enum Error {
    /// The processor rejected the record.
    TransactionError(TransactionError),
    /// A money operation without an amount.
    WrongArgument,
    /// A line with too few fields, or a field that does not read.
    MalformedRecord,
}

impl From<TransactionError> for Error {
    fn from(err: TransactionError) -> (r: Self) {
        Self::TransactionError(err)
    }
}

impl vstd::std_specs::convert::FromSpecImpl<TransactionError> for Error {
    open spec fn obeys_from_spec() -> bool {
        true
    }

    open spec fn from_spec(err: TransactionError) -> Self {
        Self::TransactionError(err)
    }
}

/// A byte record layouts ignore around a field: space, tab, carriage
/// return.
pub open spec fn is_blank(b: u8) -> bool {
    b == 32 || b == 9 || b == 13
}

/// `s` without leading and trailing blanks.
pub open spec fn trimmed(s: Seq<u8>) -> Seq<u8>
    decreases s.len(),
{
    if s.len() > 0 && is_blank(s.first()) {
        trimmed(s.drop_first())
    } else if s.len() > 0 && is_blank(s.last()) {
        trimmed(s.drop_last())
    } else {
        s
    }
}

/// Trimming skips any run of leading blanks in one go.
proof fn lemma_trimmed_skips_blanks(s: Seq<u8>, i: int)
    requires
        0 <= i <= s.len(),
        forall|k: int| 0 <= k < i ==> is_blank(#[trigger] s[k]),
        i == s.len() || !is_blank(s[i]),
    ensures
        trimmed(s) == trimmed(s.skip(i)),
    decreases i,
{
    if i > 0 {
        assert(is_blank(s.first()));
        assert(s.drop_first() =~= s.skip(1));
        lemma_trimmed_skips_blanks(s.skip(1), i - 1);
        assert(s.skip(1).skip(i - 1) =~= s.skip(i));
    } else {
        assert(s.skip(0) =~= s);
    }
}

/// A string with no leading blank trims to its prefix before the trailing
/// blanks.
proof fn lemma_trimmed_takes_until_blanks(t: Seq<u8>, j: int)
    requires
        0 <= j <= t.len(),
        t.len() == 0 || !is_blank(t.first()),
        forall|k: int| j <= k < t.len() ==> is_blank(#[trigger] t[k]),
        j == 0 || !is_blank(t[j - 1]),
    ensures
        trimmed(t) == t.take(j),
    decreases t.len() - j,
{
    if j == t.len() {
        assert(t.take(j) =~= t);
    } else {
        assert(is_blank(t.last()));
        assert(t.len() > 0);
        assert(!is_blank(t.first()));
        lemma_trimmed_takes_until_blanks(t.drop_last(), j);
        assert(t.drop_last().take(j) =~= t.take(j));
    }
}

/// Cuts the blanks off both ends of a field.
pub fn trim_blanks(s: &[u8]) -> (r: &[u8])
    ensures
        r@ == trimmed(s@),
{
    let mut start: usize = 0;
    while start < s.len() && (s[start] == 32 || s[start] == 9 || s[start] == 13)
        invariant
            start <= s@.len(),
            forall|k: int| 0 <= k < start ==> is_blank(#[trigger] s@[k]),
        decreases s@.len() - start,
    {
        start = start + 1;
    }
    let mut end: usize = s.len();
    while end > start && (s[end - 1] == 32 || s[end - 1] == 9 || s[end - 1] == 13)
        invariant
            start <= end <= s@.len(),
            forall|k: int| end <= k < s@.len() ==> is_blank(#[trigger] s@[k]),
        decreases end,
    {
        end = end - 1;
    }
    proof {
        lemma_trimmed_skips_blanks(s@, start as int);
        let t = s@.skip(start as int);
        assert forall|k: int| end - start <= k < t.len() implies is_blank(#[trigger] t[k]) by {
            assert(t[k] == s@[k + start]);
            assert(is_blank(s@[k + start]));
        }
        lemma_trimmed_takes_until_blanks(t, end - start);
        assert(t.take(end - start) =~= s@.subrange(start as int, end as int));
    }
    &s[start..end]
}

/// `s` split at every occurrence of `sep`. An empty string is one empty
/// piece, as a split has it.
pub open spec fn split_on(s: Seq<u8>, sep: u8) -> Seq<Seq<u8>>
    decreases s.len(),
{
    if s.len() == 0 {
        seq![Seq::<u8>::empty()]
    } else if s.last() == sep {
        split_on(s.drop_last(), sep).push(Seq::<u8>::empty())
    } else {
        let prev = split_on(s.drop_last(), sep);
        prev.update(prev.len() - 1, prev.last().push(s.last()))
    }
}

/// Splits `s` at every occurrence of `sep`.
pub fn split_on_byte(s: &[u8], sep: u8) -> (r: Vec<Vec<u8>>)
    ensures
        r@.map_values(|p: Vec<u8>| p@) == split_on(s@, sep),
        r@.len() >= 1,
{
    let mut result: Vec<Vec<u8>> = Vec::new();
    let mut cur: Vec<u8> = Vec::new();
    let ghost mut done: Seq<Seq<u8>> = Seq::empty();
    let mut i: usize = 0;
    proof {
        assert(s@.take(0) =~= Seq::<u8>::empty());
        assert(split_on(s@.take(0), sep) =~= done.push(cur@));
    }
    while i < s.len()
        invariant
            i <= s@.len(),
            split_on(s@.take(i as int), sep) == done.push(cur@),
            result@.len() == done.len(),
            forall|k: int| 0 <= k < done.len() ==> (#[trigger] result@[k])@ == done[k],
        decreases s@.len() - i,
    {
        let b = s[i];
        proof {
            assert(s@.take(i + 1).drop_last() =~= s@.take(i as int));
            assert(s@.take(i + 1).last() == s@[i as int]);
        }
        if b == sep {
            result.push(cur);
            proof {
                done = done.push(cur@);
                assert(split_on(s@.take(i + 1), sep) =~= done.push(Seq::<u8>::empty()));
            }
            cur = Vec::new();
        } else {
            let ghost old_cur = cur@;
            cur.push(b);
            proof {
                let prev = done.push(old_cur);
                assert(prev.update(prev.len() - 1, prev.last().push(b)) =~= done.push(cur@));
            }
        }
        i = i + 1;
    }
    result.push(cur);
    proof {
        done = done.push(cur@);
        assert(s@.take(s@.len() as int) =~= s@);
        assert(result@.map_values(|p: Vec<u8>| p@) =~= split_on(s@, sep));
    }
    result
}

/// The comma-separated fields of a line, untrimmed.
pub open spec fn raw_fields(line: Seq<u8>) -> Seq<Seq<u8>> {
    split_on(line, 44u8)
}

/// The fields of a line as the engine reads them: split at every comma,
/// blanks trimmed off each field.
pub open spec fn line_fields(line: Seq<u8>) -> Seq<Seq<u8>> {
    raw_fields(line).map_values(|f: Seq<u8>| trimmed(f))
}

/// Splits one line into its trimmed fields.
pub fn split_fields(line: &[u8]) -> (r: Vec<Vec<u8>>)
    ensures
        r@.map_values(|f: Vec<u8>| f@) == line_fields(line@),
        r@.len() >= 1,
{
    let raw = split_on_byte(line, 44);
    let mut result: Vec<Vec<u8>> = Vec::new();
    let mut i: usize = 0;
    while i < raw.len()
        invariant
            i <= raw@.len(),
            raw@.map_values(|p: Vec<u8>| p@) == raw_fields(line@),
            result@.len() == i,
            forall|k: int| 0 <= k < i ==> (#[trigger] result@[k])@ == trimmed(raw@[k]@),
        decreases raw@.len() - i,
    {
        let field = vstd::slice::slice_to_vec(trim_blanks(raw[i].as_slice()));
        result.push(field);
        i = i + 1;
    }
    proof {
        assert(result@.map_values(|f: Vec<u8>| f@) =~= line_fields(line@)) by {
            assert(forall|k: int|
                0 <= k < raw@.len() ==> raw@[k]@ == #[trigger] raw_fields(line@)[k]);
        }
    }
    result
}

/// An ASCII byte, lowercased.
pub open spec fn lower(b: u8) -> u8 {
    if 65 <= b <= 90 {
        (b + 32) as u8
    } else {
        b
    }
}

/// The keyword naming each record kind, as lowercase bytes.
pub open spec fn kind_keyword(kind: TransactionKind) -> Seq<u8> {
    match kind {
        TransactionKind::Deposit => seq![100u8, 101u8, 112u8, 111u8, 115u8, 105u8, 116u8],
        TransactionKind::Withdrawal => seq![
            119u8,
            105u8,
            116u8,
            104u8,
            100u8,
            114u8,
            97u8,
            119u8,
            97u8,
            108u8,
        ],
        TransactionKind::Resolve => seq![114u8, 101u8, 115u8, 111u8, 108u8, 118u8, 101u8],
        TransactionKind::Dispute => seq![100u8, 105u8, 115u8, 112u8, 117u8, 116u8, 101u8],
        TransactionKind::Chargeback => seq![
            99u8,
            104u8,
            97u8,
            114u8,
            103u8,
            101u8,
            98u8,
            97u8,
            99u8,
            107u8,
        ],
    }
}

/// True when `s`, lowercased, spells `kind`'s keyword.
pub open spec fn spells_kind(s: Seq<u8>, kind: TransactionKind) -> bool {
    s.map_values(|b: u8| lower(b)) == kind_keyword(kind)
}

/// What [`parse_kind`] returns (the keywords differ pairwise, so at most one
/// kind matches).
pub open spec fn spec_parse_kind(s: Seq<u8>) -> Option<TransactionKind> {
    if spells_kind(s, TransactionKind::Deposit) {
        Some(TransactionKind::Deposit)
    } else if spells_kind(s, TransactionKind::Withdrawal) {
        Some(TransactionKind::Withdrawal)
    } else if spells_kind(s, TransactionKind::Resolve) {
        Some(TransactionKind::Resolve)
    } else if spells_kind(s, TransactionKind::Dispute) {
        Some(TransactionKind::Dispute)
    } else if spells_kind(s, TransactionKind::Chargeback) {
        Some(TransactionKind::Chargeback)
    } else {
        None
    }
}

/// True when `s`, lowercased, equals `keyword`.
fn eq_lower(s: &[u8], keyword: &[u8]) -> (r: bool)
    ensures
        r == (s@.map_values(|b: u8| lower(b)) == keyword@),
{
    if s.len() != keyword.len() {
        proof {
            assert(s@.map_values(|b: u8| lower(b)).len() == s@.len());
        }
        return false;
    }
    let mut i: usize = 0;
    while i < s.len()
        invariant
            i <= s@.len() == keyword@.len(),
            forall|j: int| 0 <= j < i ==> lower(s@[j]) == keyword@[j],
        decreases s@.len() - i,
    {
        let b = s[i];
        let low = if b >= 65 && b <= 90 {
            b + 32
        } else {
            b
        };
        if low != keyword[i] {
            proof {
                assert(s@.map_values(|b: u8| lower(b))[i as int] == lower(s@[i as int]));
            }
            return false;
        }
        i = i + 1;
    }
    proof {
        assert(s@.map_values(|b: u8| lower(b)) =~= keyword@);
    }
    true
}

/// Reads a kind field, case-insensitively.
pub fn parse_kind(s: &[u8]) -> (r: Option<TransactionKind>)
    ensures
        r == spec_parse_kind(s@),
{
    let deposit: [u8; 7] = [100, 101, 112, 111, 115, 105, 116];
    let withdrawal: [u8; 10] = [119, 105, 116, 104, 100, 114, 97, 119, 97, 108];
    let resolve: [u8; 7] = [114, 101, 115, 111, 108, 118, 101];
    let dispute: [u8; 7] = [100, 105, 115, 112, 117, 116, 101];
    let chargeback: [u8; 10] = [99, 104, 97, 114, 103, 101, 98, 97, 99, 107];
    proof {
        assert(deposit@ =~= kind_keyword(TransactionKind::Deposit));
        assert(withdrawal@ =~= kind_keyword(TransactionKind::Withdrawal));
        assert(resolve@ =~= kind_keyword(TransactionKind::Resolve));
        assert(dispute@ =~= kind_keyword(TransactionKind::Dispute));
        assert(chargeback@ =~= kind_keyword(TransactionKind::Chargeback));
    }
    if eq_lower(s, deposit.as_slice()) {
        Some(TransactionKind::Deposit)
    } else if eq_lower(s, withdrawal.as_slice()) {
        Some(TransactionKind::Withdrawal)
    } else if eq_lower(s, resolve.as_slice()) {
        Some(TransactionKind::Resolve)
    } else if eq_lower(s, dispute.as_slice()) {
        Some(TransactionKind::Dispute)
    } else if eq_lower(s, chargeback.as_slice()) {
        Some(TransactionKind::Chargeback)
    } else {
        None
    }
}

/// What [`parse_id`] returns: the value of one to ten decimal digits, when
/// it fits a `u32`.
pub open spec fn spec_parse_id(s: Seq<u8>) -> Option<u32> {
    if all_digits(s) && 1 <= s.len() <= 10 && digits_val(s) <= u32::MAX {
        Some(digits_val(s) as u32)
    } else {
        None
    }
}

/// Reads a client or transaction id field: one to ten decimal digits whose
/// value fits a `u32`.
pub fn parse_id(s: &[u8]) -> (r: Option<u32>)
    ensures
        r == spec_parse_id(s@),
{
    let n = s.len();
    if n == 0 || n > 10 {
        return None;
    }
    let mut acc: u64 = 0;
    let mut i: usize = 0;
    while i < n
        invariant
            i <= n == s@.len() <= 10,
            all_digits(s@.take(i as int)),
            acc == digits_val(s@.take(i as int)),
            acc < 10_000_000_000,
        decreases n - i,
    {
        let b = s[i];
        if b < 48 || b > 57 {
            proof {
                assert(!is_ascii_digit(s@[i as int]));
            }
            return None;
        }
        proof {
            assert(s@.take(i + 1).drop_last() =~= s@.take(i as int));
            assert(all_digits(s@.take(i + 1)));
            crate::amounts::lemma_digits_val_bounds(s@.take(i + 1));
            crate::amounts::lemma_pow10_increases((i + 1) as nat, 10);
            assert(crate::amounts::pow10(10) == 10_000_000_000) by {
                reveal_with_fuel(crate::amounts::pow10, 11);
            }
        }
        acc = acc * 10 + (b - 48) as u64;
        i = i + 1;
    }
    proof {
        assert(s@.take(n as int) =~= s@);
    }
    if acc > 0xFFFF_FFFF {
        return None;
    }
    Some(acc as u32)
}

/// What [`TransactionOrder::from_parts`] builds from a record's typed
/// fields: a money operation when the kind carries the amount it requires, a
/// claim (whose amount field is ignored) for the other kinds, and
/// `WrongArgument` for a money operation without an amount.
pub open spec fn spec_order_from_parts(
    kind: TransactionKind,
    client_id: ClientId,
    transaction_id: TransactionId,
    amount: Option<u64>,
) -> Result<TransactionOrder, Error> {
    match kind {
        TransactionKind::Deposit => match amount {
            Some(a) => Ok(
                TransactionOrder::MoneyOperation(
                    (MoneyOperation {
                        client_id,
                        transaction_id,
                        disputed: false,
                        operation_kind: OperationKind::Deposit(a),
                    }),
                ),
            ),
            None => Err(Error::WrongArgument),
        },
        TransactionKind::Withdrawal => match amount {
            Some(a) => Ok(
                TransactionOrder::MoneyOperation(
                    (MoneyOperation {
                        client_id,
                        transaction_id,
                        disputed: false,
                        operation_kind: OperationKind::Withdrawal(a),
                    }),
                ),
            ),
            None => Err(Error::WrongArgument),
        },
        TransactionKind::Resolve => Ok(
            TransactionOrder::ClientClaim(
                (ClientClaim { client_id, transaction_id, claim_kind: ClientClaimKind::Resolve }),
            ),
        ),
        TransactionKind::Dispute => Ok(
            TransactionOrder::ClientClaim(
                (ClientClaim { client_id, transaction_id, claim_kind: ClientClaimKind::Dispute }),
            ),
        ),
        TransactionKind::Chargeback => Ok(
            TransactionOrder::ClientClaim(
                (ClientClaim {
                    client_id,
                    transaction_id,
                    claim_kind: ClientClaimKind::Chargeback,
                }),
            ),
        ),
    }
}

/// What [`parse_record`] returns for one line: its trimmed fields must hold
/// a kind, a client id and a transaction id, and may hold an amount; missing
/// or unreadable fields make the record malformed, and a money operation
/// without an amount is a wrong argument.
pub open spec fn spec_parse_record(line: Seq<u8>) -> Result<TransactionOrder, Error> {
    let fields = line_fields(line);
    if fields.len() < 3 {
        Err(Error::MalformedRecord)
    } else {
        match spec_parse_kind(fields[0]) {
            None => Err(Error::MalformedRecord),
            Some(kind) => match spec_parse_id(fields[1]) {
                None => Err(Error::MalformedRecord),
                Some(client) => match spec_parse_id(fields[2]) {
                    None => Err(Error::MalformedRecord),
                    Some(tx) => {
                        if fields.len() >= 4 && fields[3].len() > 0 {
                            match crate::amounts::spec_parse_amount(fields[3]) {
                                None => Err(Error::MalformedRecord),
                                Some(a) => spec_order_from_parts(
                                    kind,
                                    ClientId(client),
                                    TransactionId(tx),
                                    Some(a),
                                ),
                            }
                        } else {
                            spec_order_from_parts(kind, ClientId(client), TransactionId(tx), None)
                        }
                    },
                },
            },
        }
    }
}

/// Reads one input line: comma-separated fields, blanks trimmed, spelling a
/// kind, a client id, a transaction id and, optionally, an amount.
pub fn parse_record(line: &[u8]) -> (r: Result<TransactionOrder, Error>)
    ensures
        r == spec_parse_record(line@),
{
    let fields = split_fields(line);
    proof {
        assert(fields@.map_values(|f: Vec<u8>| f@).len() == fields@.len());
        assert(forall|k: int|
            0 <= k < fields@.len() ==> (#[trigger] fields@[k])@ == line_fields(line@)[k]);
    }
    if fields.len() < 3 {
        return Err(Error::MalformedRecord);
    }
    let kind = match parse_kind(fields[0].as_slice()) {
        None => {
            return Err(Error::MalformedRecord);
        },
        Some(kind) => kind,
    };
    let client = match parse_id(fields[1].as_slice()) {
        None => {
            return Err(Error::MalformedRecord);
        },
        Some(client) => client,
    };
    let tx = match parse_id(fields[2].as_slice()) {
        None => {
            return Err(Error::MalformedRecord);
        },
        Some(tx) => tx,
    };
    let amount = if fields.len() >= 4 && fields[3].len() > 0 {
        match crate::amounts::parse_amount(fields[3].as_slice()) {
            None => {
                return Err(Error::MalformedRecord);
            },
            Some(a) => Some(a),
        }
    } else {
        None
    };
    TransactionOrder::from_parts(kind, ClientId(client), TransactionId(tx), amount)
}

/// A line of nothing but blanks: skipped, never reported.
pub open spec fn blank_line(l: Seq<u8>) -> bool {
    forall|i: int| 0 <= i < l.len() ==> is_blank(#[trigger] l[i])
}

/// What feeding one line to the engine does: a blank line does nothing, a
/// malformed line is dropped with its reading error, and a readable record
/// is applied by one [`crate::transactions::step`], reporting its failure if
/// it has one.
pub open spec fn line_step(
    accounts: Map<u32, Client>,
    register: Map<u32, MoneyOperation>,
    line: Seq<u8>,
) -> (Map<u32, Client>, Map<u32, MoneyOperation>, Seq<Error>) {
    if blank_line(line) {
        (accounts, register, Seq::<Error>::empty())
    } else {
        match spec_parse_record(line) {
            Ok(order) => {
                let stepped = crate::transactions::step(accounts, register, order);
                (
                    stepped.0,
                    stepped.1,
                    match stepped.2 {
                        Ok(_) => Seq::<Error>::empty(),
                        Err(e) => seq![Error::TransactionError(e)],
                    },
                )
            },
            Err(e) => (accounts, register, seq![e]),
        }
    }
}

/// The ledger, the registry and the reported failures after feeding `lines`
/// to the engine in order.
pub open spec fn run_lines(
    accounts: Map<u32, Client>,
    register: Map<u32, MoneyOperation>,
    lines: Seq<Seq<u8>>,
) -> (Map<u32, Client>, Map<u32, MoneyOperation>, Seq<Error>)
    decreases lines.len(),
{
    if lines.len() == 0 {
        (accounts, register, Seq::<Error>::empty())
    } else {
        let first = line_step(accounts, register, lines[0]);
        let rest = run_lines(first.0, first.1, lines.drop_first());
        (rest.0, rest.1, first.2 + rest.2)
    }
}

/// Feeding one line more means one more line step from where the run before
/// it ended.
pub proof fn lemma_run_lines_unfolds(
    accounts: Map<u32, Client>,
    register: Map<u32, MoneyOperation>,
    lines: Seq<Seq<u8>>,
    n: int,
)
    requires
        0 <= n < lines.len(),
    ensures
        run_lines(accounts, register, lines.take(n + 1)) == ({
            let before = run_lines(accounts, register, lines.take(n));
            let here = line_step(before.0, before.1, lines[n]);
            (here.0, here.1, before.2 + here.2)
        }),
    decreases n,
{
    if n == 0 {
        assert(lines.take(1).drop_first() =~= Seq::<Seq<u8>>::empty());
        assert(lines.take(0) =~= Seq::<Seq<u8>>::empty());
        assert(lines.take(1)[0] == lines[0]);
        let here = line_step(accounts, register, lines[0]);
        assert(run_lines(here.0, here.1, Seq::<Seq<u8>>::empty()).2 =~= Seq::<Error>::empty());
        assert(here.2 + Seq::<Error>::empty() =~= Seq::<Error>::empty() + here.2);
    } else {
        let first = line_step(accounts, register, lines[0]);
        lemma_run_lines_unfolds(first.0, first.1, lines.drop_first(), n - 1);
        assert(lines.drop_first().take(n - 1) =~= lines.take(n).drop_first());
        assert(lines.drop_first().take(n) =~= lines.take(n + 1).drop_first());
        assert(lines.take(n + 1)[0] == lines[0]);
        assert(lines.take(n)[0] == lines[0]);
        assert(lines.drop_first()[n - 1] == lines[n]);
        let before_tail = run_lines(first.0, first.1, lines.drop_first().take(n - 1));
        let here = line_step(before_tail.0, before_tail.1, lines[n]);
        assert(first.2 + (before_tail.2 + here.2) =~= (first.2 + before_tail.2) + here.2);
    }
}

/// True when the line holds nothing but blanks.
pub fn is_blank_line(line: &[u8]) -> (r: bool)
    ensures
        r == blank_line(line@),
{
    let mut i: usize = 0;
    while i < line.len()
        invariant
            i <= line@.len(),
            forall|k: int| 0 <= k < i ==> is_blank(#[trigger] line@[k]),
        decreases line@.len() - i,
    {
        let b = line[i];
        if !(b == 32 || b == 9 || b == 13) {
            return false;
        }
        i = i + 1;
    }
    true
}

/// Reads a whole input: one record per line, the first line being the
/// header. Every readable record is applied to the ledger and the registry
/// in input order; blank lines are skipped; a failing line is reported and
/// never stops the run. Returns the failures, in input order.
pub fn read_transactions(
    input: &[u8],
    accounts: &mut ClientAccounts,
    operations_register: &mut MoneyOperationsRegister,
) -> (errors: Vec<Error>)
    requires
        old(accounts).wf(),
    ensures
        final(accounts).wf(),
        ({
            let outcome = run_lines(
                old(accounts)@,
                old(operations_register)@,
                split_on(input@, 10u8).drop_first(),
            );
            &&& final(accounts)@ == outcome.0
            &&& final(operations_register)@ == outcome.1
            &&& errors@ == outcome.2
        }),
{
    let ghost accounts0 = accounts@;
    let ghost register0 = operations_register@;
    let ghost tail = split_on(input@, 10u8).drop_first();
    let lines = split_on_byte(input, 10);
    let mut errors: Vec<Error> = Vec::new();
    let mut n: usize = 1;
    proof {
        assert(tail.take(0) =~= Seq::<Seq<u8>>::empty());
    }
    while n < lines.len()
        invariant
            1 <= n <= lines@.len(),
            accounts.wf(),
            lines@.map_values(|p: Vec<u8>| p@) == split_on(input@, 10u8),
            tail == split_on(input@, 10u8).drop_first(),
            ({
                let outcome = run_lines(accounts0, register0, tail.take(n - 1));
                &&& accounts@ == outcome.0
                &&& operations_register@ == outcome.1
                &&& errors@ == outcome.2
            }),
        decreases lines@.len() - n,
    {
        proof {
            assert(lines@.map_values(|p: Vec<u8>| p@)[n as int] == lines@[n as int]@);
            assert(tail[n - 1] == lines@[n as int]@);
        }
        let ghost before = run_lines(accounts0, register0, tail.take(n - 1));
        if !is_blank_line(lines[n].as_slice()) {
            match parse_record(lines[n].as_slice()) {
                Ok(order) => {
                    match order.process(accounts, operations_register) {
                        Ok(()) => {},
                        Err(e) => {
                            errors.push(Error::TransactionError(e));
                        },
                    }
                },
                Err(e) => {
                    errors.push(e);
                },
            }
        }
        proof {
            lemma_run_lines_unfolds(accounts0, register0, tail, n - 1);
            let here = line_step(before.0, before.1, tail[n - 1]);
            assert(errors@ =~= before.2 + here.2);
        }
        n = n + 1;
    }
    proof {
        assert(lines@.map_values(|p: Vec<u8>| p@).len() == lines@.len());
        assert(tail.take(lines@.len() - 1) =~= tail);
    }
    errors
}

impl TransactionOrder {
    /// Assembles a record from its typed fields. A deposit or withdrawal
    /// must carry an amount; a claim ignores one.
    pub fn from_parts(
        kind: TransactionKind,
        client_id: ClientId,
        transaction_id: TransactionId,
        amount: Option<u64>,
    ) -> (r: Result<TransactionOrder, Error>)
        ensures
            r == spec_order_from_parts(kind, client_id, transaction_id, amount),
    {
        match kind {
            TransactionKind::Deposit | TransactionKind::Withdrawal => {
                let operation_kind = match (kind, amount) {
                    (TransactionKind::Deposit, Some(a)) => OperationKind::Deposit(a),
                    (TransactionKind::Withdrawal, Some(a)) => OperationKind::Withdrawal(a),
                    _ => {
                        return Err(Error::WrongArgument);
                    },
                };
                Ok(
                    TransactionOrder::MoneyOperation(
                        MoneyOperation { client_id, transaction_id, disputed: false, operation_kind },
                    ),
                )
            },
            _ => Ok(
                TransactionOrder::ClientClaim(
                    ClientClaim {
                        client_id,
                        transaction_id,
                        claim_kind: match kind {
                            TransactionKind::Resolve => ClientClaimKind::Resolve,
                            TransactionKind::Dispute => ClientClaimKind::Dispute,
                            _ => ClientClaimKind::Chargeback,
                        },
                    },
                ),
            ),
        }
    }
}

} // verus!
