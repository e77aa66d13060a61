//! The descriptor grammar parser.
//!
//! A DFU interface descriptor string has the shape
//! `@Name/address/layout[/address/layout...]`.  The string is split on
//! `/`; the first segment carries the memory area name after a leading
//! `@`, and the remaining segments are consumed two at a time as a bank
//! base address (a numeric literal) and a comma-separated list of layout
//! tokens.  A layout token such as `04*016Kg` names a block count, a block
//! size with a multiplier character, and an access character; counts and
//! sizes are plain decimal digit runs.  Sectors are laid out one after the
//! other from the bank's base address.
//!
//! Sizes and running addresses that would not fit in `usize` are treated
//! as malformed layout tokens, so that a well-parsed map never overflows
//! the machine's address arithmetic.

use vstd::prelude::*;
use vstd::string::StrSliceExecFns;
use vstd::string::StringExecFns;
use crate::memory::{
    Accessibility, Bank, BankView, MemoryMap, MemoryMapView, Sector, SectorView, bank_chained,
    bank_views, sector_views, ACCESS_READ, ACCESS_WRITE, ACCESS_ERASE,
};
use crate::numeric::{all_digits, digits_value, numeric_ok, numeric_value, usize_from_chars};
use crate::text::{
    chars_of, find_from, lemma_split_on_absent, lemma_split_on_first, lemma_split_on_nonempty,
    split_from, split_on, trim, trim_range, views_of,
};

verus! {

/// Failure of the descriptor grammar parser.
#[derive(Clone, Copy, Debug, PartialEq, Eq, Structural)]
pub enum DefParseError {
    /// The name segment does not begin with `@`.
    InvalidStartChar,
    /// An address segment stands without a matching layout segment.
    InvalidBankPartCount,
    /// A bank base-address segment failed numeric parsing.
    AddressParseError,
    /// A layout token is malformed.
    InvalidSectorDefinition,
}

/// Failure of the sector layout parser: a malformed layout token.
#[derive(Clone, Copy, Debug, PartialEq, Eq, Structural)]
pub struct SectorDefinitionError;

/// The byte multiplier selected by a layout token's size-multiplier
/// character: mebibytes, kibibytes, or single bytes.
pub open spec fn multiplier_of(c: char) -> Option<int> {
    if c == 'M' {
        Some(1048576int)
    } else if c == 'K' {
        Some(1024int)
    } else if c == ' ' {
        Some(1int)
    } else {
        None
    }
}

/// The capability set encoded by a layout token's access character.
pub open spec fn access_of(c: char) -> Option<Accessibility> {
    if c == 'a' {
        Some(Accessibility { bits: ACCESS_READ })
    } else if c == 'b' {
        Some(Accessibility { bits: ACCESS_ERASE })
    } else if c == 'c' {
        Some(Accessibility { bits: ACCESS_READ | ACCESS_ERASE })
    } else if c == 'd' {
        Some(Accessibility { bits: ACCESS_WRITE })
    } else if c == 'e' {
        Some(Accessibility { bits: ACCESS_READ | ACCESS_WRITE })
    } else if c == 'f' {
        Some(Accessibility { bits: ACCESS_WRITE | ACCESS_ERASE })
    } else if c == 'g' {
        Some(Accessibility { bits: ACCESS_READ | ACCESS_WRITE | ACCESS_ERASE })
    } else {
        None
    }
}

/// Whether a count or size field (after trimming) is a non-empty run of
/// decimal digits whose value fits in `usize`.
pub open spec fn dec_field_ok(s: Seq<char>) -> bool {
    trim(s).len() > 0 && all_digits(trim(s), 10) && digits_value(trim(s), 10) <= usize::MAX
}

/// The value of a well-formed count or size field.
pub open spec fn dec_field_value(s: Seq<char>) -> int {
    digits_value(trim(s), 10)
}

/// What one layout token denotes, given the running block index and byte
/// address at which its sector would start: the sector, or nothing when
/// the token is malformed.  The token's last two characters are the size
/// multiplier and the access character; what precedes them is split on
/// `*` into a count field and a size field.
pub open spec fn sector_token_spec(index: int, address: int, tok: Seq<char>) -> Option<
    SectorView,
> {
    if tok.len() < 2 {
        None
    } else {
        let fields = split_on(tok.take(tok.len() - 2), '*');
        match (multiplier_of(tok[tok.len() - 2]), access_of(tok[tok.len() - 1])) {
            (Some(m), Some(a)) => {
                if fields.len() < 2 || !dec_field_ok(fields[0]) || !dec_field_ok(fields[1]) {
                    None
                } else if dec_field_value(fields[1]) * m > usize::MAX {
                    None
                } else {
                    Some(
                        SectorView {
                            index,
                            address,
                            block_count: dec_field_value(fields[0]),
                            block_size: dec_field_value(fields[1]) * m,
                            access: a,
                        },
                    )
                }
            },
            _ => None,
        }
    }
}

/// The sectors denoted by a list of layout tokens, laid out one after the
/// other from the given running block index and byte address; nothing when
/// any token is malformed or a running value would not fit in `usize`.
pub open spec fn layout_list_spec(toks: Seq<Seq<char>>, index: int, address: int) -> Option<
    Seq<SectorView>,
>
    decreases toks.len(),
{
    if toks.len() == 0 {
        Some(Seq::<SectorView>::empty())
    } else {
        match sector_token_spec(index, address, toks.first()) {
            None => None,
            Some(sv) => {
                if index + sv.block_count > usize::MAX || address + sv.total_size() > usize::MAX {
                    None
                } else {
                    match layout_list_spec(
                        toks.drop_first(),
                        index + sv.block_count,
                        address + sv.total_size(),
                    ) {
                        None => None,
                        Some(rest) => Some(seq![sv] + rest),
                    }
                }
            },
        }
    }
}

/// The banks denoted by the descriptor segments after the name, consumed
/// two at a time as an address segment and a layout segment, or the first
/// error in segment order.
pub open spec fn banks_spec(segs: Seq<Seq<char>>, index: int) -> Result<
    Seq<BankView>,
    DefParseError,
>
    decreases segs.len(),
{
    if segs.len() == 0 {
        Ok(Seq::<BankView>::empty())
    } else if !numeric_ok(segs.first()) {
        Err(DefParseError::AddressParseError)
    } else if segs.len() == 1 {
        Err(DefParseError::InvalidBankPartCount)
    } else {
        match layout_list_spec(split_on(segs[1], ','), 0, numeric_value(segs.first())) {
            None => Err(DefParseError::InvalidSectorDefinition),
            Some(sectors) => match banks_spec(segs.skip(2), index + 1) {
                Err(e) => Err(e),
                Ok(rest) => Ok(
                    seq![
                        BankView {
                            index,
                            address: if sectors.len() > 0 {
                                sectors.first().address
                            } else {
                                0
                            },
                            sectors,
                        }
                    ] + rest,
                ),
            },
        }
    }
}

/// What a whole descriptor string denotes: the memory map, or the first
/// error.  The name is the first `/`-separated segment, which must begin
/// with `@`; the name itself is what follows the `@`, trimmed.
pub open spec fn parse_descriptor_spec(s: Seq<char>) -> Result<MemoryMapView, DefParseError> {
    let segs = split_on(s, '/');
    if segs.first().len() == 0 || segs.first()[0] != '@' {
        Err(DefParseError::InvalidStartChar)
    } else {
        match banks_spec(segs.drop_first(), 0) {
            Err(e) => Err(e),
            Ok(banks) => Ok(MemoryMapView { name: trim(segs.first().drop_first()), banks }),
        }
    }
}

/// Reads one layout token held in `tok`, building the sector that starts
/// at the given running block index and byte address.
fn sector_from_token(sector_index: usize, sector_address: usize, tok: &Vec<char>) -> (r: Result<
    Sector,
    SectorDefinitionError,
>)
    ensures
        r matches Ok(sec) ==> sector_token_spec(sector_index as int, sector_address as int, tok@)
            == Some(sec@),
        r is Err ==> sector_token_spec(sector_index as int, sector_address as int, tok@) is None,
{
    let n = tok.len();
    if n < 2 {
        return Err(SectorDefinitionError);
    }
    let body_end = n - 2;
    let mult_c = tok[n - 2];
    let acc_c = tok[n - 1];
    let ghost body = tok@.take(body_end as int);
    let ghost fields = split_on(body, '*');
    let star = find_from(tok, 0, body_end, '*');
    if star == body_end {
        proof {
            lemma_split_on_absent(body, '*');
        }
        return Err(SectorDefinitionError);
    }
    let star2 = find_from(tok, star + 1, body_end, '*');
    proof {
        lemma_split_on_first(body, '*', star as int);
        lemma_split_on_nonempty(body.skip(star as int + 1), '*');
        assert(fields[0] == body.take(star as int));
        assert(fields.drop_first() =~~= split_on(body.skip(star as int + 1), '*'));
        if star2 == body_end {
            lemma_split_on_absent(body.skip(star as int + 1), '*');
        } else {
            lemma_split_on_first(body.skip(star as int + 1), '*', star2 - star - 1);
            assert(body.skip(star as int + 1).take(star2 - star - 1) =~= body.skip(
                star as int + 1,
            ).subrange(0, star2 - star - 1));
        }
        assert(fields[1] == body.skip(star as int + 1).subrange(0, star2 - star - 1)) by {
            assert(fields[1] == fields.drop_first()[0]);
            if star2 == body_end {
                assert(body.skip(star as int + 1).subrange(0, star2 - star - 1) =~= body.skip(
                    star as int + 1,
                ));
            }
        }
        assert(fields[0] =~= tok@.subrange(0, star as int));
        assert(fields[1] =~= tok@.subrange(star as int + 1, star2 as int));
        assert(fields.len() >= 2);
    }
    let (a0, b0) = trim_range(tok, 0, star);
    proof {
        assert(trim(fields[0]) == tok@.subrange(a0 as int, b0 as int));
    }
    let block_count = match crate::numeric::parse_digits(tok, a0, b0, 10) {
        Some(v) => v,
        None => {
            return Err(SectorDefinitionError);
        },
    };
    let (a1, b1) = trim_range(tok, star + 1, star2);
    proof {
        assert(trim(fields[1]) == tok@.subrange(a1 as int, b1 as int));
    }
    let base_size = match crate::numeric::parse_digits(tok, a1, b1, 10) {
        Some(v) => v,
        None => {
            return Err(SectorDefinitionError);
        },
    };
    let mult: usize = if mult_c == 'M' {
        1024 * 1024
    } else if mult_c == 'K' {
        1024
    } else if mult_c == ' ' {
        1
    } else {
        return Err(SectorDefinitionError);
    };
    let block_size = match base_size.checked_mul(mult) {
        Some(v) => v,
        None => {
            return Err(SectorDefinitionError);
        },
    };
    let access: Accessibility = if acc_c == 'a' {
        Accessibility::read()
    } else if acc_c == 'b' {
        Accessibility::erase()
    } else if acc_c == 'c' {
        Accessibility::read_erase()
    } else if acc_c == 'd' {
        Accessibility::write()
    } else if acc_c == 'e' {
        Accessibility::read_write()
    } else if acc_c == 'f' {
        Accessibility::write_erase()
    } else if acc_c == 'g' {
        Accessibility::read_write_erase()
    } else {
        return Err(SectorDefinitionError);
    };
    let sec = Sector::new(sector_index, sector_address, block_count, block_size, access);
    proof {
        assert(access_of(tok@[n - 1]) matches Some(a) && a == access);
        assert(sector_token_spec(sector_index as int, sector_address as int, tok@) == Some(
            sec@,
        )) by {
            assert(sec@ =~= sector_token_spec(
                sector_index as int,
                sector_address as int,
                tok@,
            )->Some_0);
        }
    }
    Ok(sec)
}

/// Reads one layout token, building the sector that starts at the given
/// running block index and byte address; fails on a malformed token.
pub fn parse_sector_layout(sector_index: usize, sector_address: usize, layoutstr: &str) -> (r:
    Result<Sector, SectorDefinitionError>)
    ensures
        r matches Ok(sec) ==> sector_token_spec(
            sector_index as int,
            sector_address as int,
            layoutstr@,
        ) == Some(sec@),
        r is Err ==> sector_token_spec(sector_index as int, sector_address as int, layoutstr@)
            is None,
{
    let chars = chars_of(layoutstr);
    sector_from_token(sector_index, sector_address, &chars)
}

/// The already parsed sectors put in front of what the rest of the token
/// list denotes.
spec fn sectors_continue(done: Seq<SectorView>, rest: Option<Seq<SectorView>>) -> Option<
    Seq<SectorView>,
> {
    match rest {
        Some(ss) => Some(done + ss),
        None => None,
    }
}

/// The already parsed banks put in front of what the rest of the segments
/// denotes.
spec fn banks_continue(done: Seq<BankView>, rest: Result<Seq<BankView>, DefParseError>) -> Result<
    Seq<BankView>,
    DefParseError,
> {
    match rest {
        Ok(bs) => Ok(done + bs),
        Err(e) => Err(e),
    }
}

proof fn lemma_sector_views_push(v: Seq<Sector>, s: Sector)
    ensures
        sector_views(v.push(s)) == sector_views(v).push(s@),
{
    assert(sector_views(v.push(s)) =~= sector_views(v).push(s@));
}

proof fn lemma_bank_views_push(v: Seq<Bank>, b: Bank)
    ensures
        bank_views(v.push(b)) == bank_views(v).push(b@),
{
    assert(bank_views(v.push(b)) =~= bank_views(v).push(b@));
}

/// Sectors denoted by a layout token list are chained: the first one
/// starts at the given index and address, and every further one continues
/// exactly where its predecessor ends.
pub proof fn lemma_layout_list_chained(toks: Seq<Seq<char>>, index: int, address: int)
    requires
        layout_list_spec(toks, index, address) is Some,
    ensures
        ({
            let ss = layout_list_spec(toks, index, address)->Some_0;
            &&& ss.len() > 0 ==> ss.first().index == index && ss.first().address == address
            &&& forall|k: int|
                1 <= k < ss.len() ==> ((#[trigger] ss[k]).address == ss[k - 1].address + ss[k
                    - 1].total_size() && ss[k].index == ss[k - 1].index + ss[k - 1].block_count)
        }),
    decreases toks.len(),
{
    if toks.len() > 0 {
        let sv = sector_token_spec(index, address, toks.first())->Some_0;
        let ni = index + sv.block_count;
        let na = address + sv.total_size();
        lemma_layout_list_chained(toks.drop_first(), ni, na);
        let rest = layout_list_spec(toks.drop_first(), ni, na)->Some_0;
        let ss = layout_list_spec(toks, index, address)->Some_0;
        assert(ss == seq![sv] + rest);
        assert forall|k: int| 1 <= k < ss.len() implies ((#[trigger] ss[k]).address == ss[k
            - 1].address + ss[k - 1].total_size() && ss[k].index == ss[k - 1].index + ss[k
            - 1].block_count) by {
            if k == 1 {
                assert(ss[0] == sv);
                assert(ss[1] == rest.first());
            } else {
                assert(ss[k] == rest[k - 1]);
                assert(ss[k - 1] == rest[k - 2]);
            }
        }
    }
}

/// Every bank denoted by well-formed descriptor segments satisfies the
/// chaining invariant.
pub proof fn lemma_banks_spec_chained(segs: Seq<Seq<char>>, index: int)
    requires
        banks_spec(segs, index) is Ok,
    ensures
        ({
            let bs = banks_spec(segs, index)->Ok_0;
            forall|i: int| 0 <= i < bs.len() ==> bank_chained(#[trigger] bs[i])
        }),
    decreases segs.len(),
{
    if segs.len() >= 2 {
        let addr = numeric_value(segs.first());
        let toks = split_on(segs[1], ',');
        lemma_layout_list_chained(toks, 0, addr);
        let sectors = layout_list_spec(toks, 0, addr)->Some_0;
        lemma_banks_spec_chained(segs.skip(2), index + 1);
        let rest = banks_spec(segs.skip(2), index + 1)->Ok_0;
        let bs = banks_spec(segs, index)->Ok_0;
        let head = BankView {
            index,
            address: if sectors.len() > 0 {
                sectors.first().address
            } else {
                0
            },
            sectors,
        };
        assert(bs == seq![head] + rest);
        assert(bank_chained(head));
        assert forall|i: int| 0 <= i < bs.len() implies bank_chained(#[trigger] bs[i]) by {
            if i > 0 {
                assert(bs[i] == rest[i - 1]);
            }
        }
    }
}

/// Bank parsing never reports a bad start character: that error belongs
/// to the name segment alone.
proof fn lemma_banks_spec_not_start_error(segs: Seq<Seq<char>>, index: int)
    ensures
        banks_spec(segs, index) != Err::<Seq<BankView>, DefParseError>(
            DefParseError::InvalidStartChar,
        ),
    decreases segs.len(),
{
    if segs.len() >= 2 {
        lemma_banks_spec_not_start_error(segs.skip(2), index + 1);
    }
}

/// A descriptor fails with `InvalidStartChar` exactly when its first
/// character is missing or is not `@`: the name segment is everything
/// before the first `/`, so it begins with `@` exactly when the whole
/// string does.
pub proof fn lemma_invalid_start_char(s: Seq<char>)
    ensures
        parse_descriptor_spec(s) == Err::<MemoryMapView, DefParseError>(
            DefParseError::InvalidStartChar,
        ) <==> (s.len() == 0 || s[0] != '@'),
{
    let segs = split_on(s, '/');
    lemma_split_on_nonempty(s, '/');
    lemma_banks_spec_not_start_error(segs.drop_first(), 0);
    if s.len() == 0 {
    } else if s[0] == '/' {
        assert(segs.first().len() == 0);
    } else {
        let rest = split_on(s.drop_first(), '/');
        lemma_split_on_nonempty(s.drop_first(), '/');
        assert(segs.first() == seq![s[0]] + rest[0]);
        assert(segs.first()[0] == s[0]);
    }
}

/// An address segment that parses but has no layout segment after it
/// makes the whole descriptor fail with `InvalidBankPartCount`, provided
/// every complete pair before it is well formed.
pub proof fn lemma_address_without_layout(segs: Seq<Seq<char>>, index: int)
    requires
        segs.len() % 2 == 1,
        forall|i: int| 0 <= i < segs.len() && i % 2 == 0 ==> numeric_ok(#[trigger] segs[i]),
        forall|i: int|
            0 <= i < segs.len() - 1 && i % 2 == 1 ==> layout_list_spec(
                split_on(#[trigger] segs[i], ','),
                0,
                numeric_value(segs[i - 1]),
            ) is Some,
    ensures
        banks_spec(segs, index) == Err::<Seq<BankView>, DefParseError>(
            DefParseError::InvalidBankPartCount,
        ),
    decreases segs.len(),
{
    if segs.len() == 1 {
        assert(numeric_ok(segs[0]));
    } else {
        assert(numeric_ok(segs[0]));
        assert(layout_list_spec(split_on(segs[1], ','), 0, numeric_value(segs[0])) is Some);
        assert forall|i: int|
            0 <= i < segs.skip(2).len() && i % 2 == 0 implies numeric_ok(
            #[trigger] segs.skip(2)[i],
        ) by {
            assert(segs.skip(2)[i] == segs[i + 2]);
        }
        assert forall|i: int|
            0 <= i < segs.skip(2).len() - 1 && i % 2 == 1 implies layout_list_spec(
            split_on(#[trigger] segs.skip(2)[i], ','),
            0,
            numeric_value(segs.skip(2)[i - 1]),
        ) is Some by {
            assert(segs.skip(2)[i] == segs[i + 2]);
            assert(segs.skip(2)[i - 1] == segs[i + 1]);
        }
        lemma_address_without_layout(segs.skip(2), index + 1);
    }
}

/// The descriptor-level reading of the dangling-address law: a descriptor
/// whose name segment is well formed, whose bank segments all parse, but
/// which ends on an address segment with no layout segment after it,
/// fails with `InvalidBankPartCount`.
pub proof fn lemma_descriptor_address_without_layout(s: Seq<char>)
    requires
        s.len() > 0,
        s[0] == '@',
        ({
            let t = split_on(s, '/').drop_first();
            &&& t.len() % 2 == 1
            &&& forall|i: int| 0 <= i < t.len() && i % 2 == 0 ==> numeric_ok(#[trigger] t[i])
            &&& forall|i: int|
                0 <= i < t.len() - 1 && i % 2 == 1 ==> layout_list_spec(
                    split_on(#[trigger] t[i], ','),
                    0,
                    numeric_value(t[i - 1]),
                ) is Some
        }),
    ensures
        parse_descriptor_spec(s) == Err::<MemoryMapView, DefParseError>(
            DefParseError::InvalidBankPartCount,
        ),
{
    let segs = split_on(s, '/');
    lemma_split_on_nonempty(s, '/');
    lemma_invalid_start_char(s);
    lemma_address_without_layout(segs.drop_first(), 0);
}

/// A layout token whose access character is not one of `a` through `g`
/// never yields a sector, whatever else the token holds.
pub proof fn lemma_unknown_access_char(index: int, address: int, tok: Seq<char>)
    requires
        tok.len() >= 2,
        access_of(tok[tok.len() - 1]) is None,
    ensures
        sector_token_spec(index, address, tok) is None,
{
}

/// Parsing is deterministic: one descriptor string denotes one result, so
/// two parses of the same string always agree, structurally.
pub proof fn lemma_parse_deterministic(s: Seq<char>, m1: MemoryMapView, m2: MemoryMapView)
    requires
        parse_descriptor_spec(s) == Ok::<MemoryMapView, DefParseError>(m1),
        parse_descriptor_spec(s) == Ok::<MemoryMapView, DefParseError>(m2),
    ensures
        m1 == m2,
{
}

/// Reads a whole interface descriptor string into a memory map.  On
/// success the result is exactly what the descriptor denotes, and every
/// bank satisfies the chaining invariant; on failure the error is the
/// first one in segment order.
#[verifier::loop_isolation(false)]
pub fn parse_memory_layout_string(ifstring: &str) -> (r: Result<MemoryMap, DefParseError>)
    ensures
        r is Ok <==> parse_descriptor_spec(ifstring@) is Ok,
        r matches Ok(m) ==> parse_descriptor_spec(ifstring@) == Ok::<
            MemoryMapView,
            DefParseError,
        >(m@),
        r matches Err(e) ==> parse_descriptor_spec(ifstring@) == Err::<
            MemoryMapView,
            DefParseError,
        >(e),
        r matches Ok(m) ==> forall|i: int|
            0 <= i < m@.banks.len() ==> bank_chained(#[trigger] m@.banks[i]),
{
    let chars = chars_of(ifstring);
    let n = chars.len();
    let ghost segs = split_on(ifstring@, '/');
    let slash = find_from(&chars, 0, n, '/');
    proof {
        lemma_split_on_first(ifstring@, '/', slash as int);
        lemma_split_on_nonempty(ifstring@, '/');
    }
    if slash == 0 {
        proof {
            assert(segs.first().len() == 0);
        }
        return Err(DefParseError::InvalidStartChar);
    }
    if chars[0] != '@' {
        proof {
            assert(segs.first()[0] == ifstring@[0]);
        }
        return Err(DefParseError::InvalidStartChar);
    }
    let (lo, hi) = trim_range(&chars, 1, slash);
    let name_str = ifstring.substring_char(lo, hi);
    let name = String::from_str(name_str);
    proof {
        assert(segs.first().drop_first() =~= ifstring@.subrange(1, slash as int));
        assert(name@ == trim(segs.first().drop_first()));
    }
    let mut bank_list: Vec<Bank> = Vec::new();
    let mut bank_index: usize = 0;
    if slash == n {
        proof {
            assert(segs.drop_first() =~~= Seq::<Seq<char>>::empty());
            assert(bank_views(bank_list@) =~= Seq::<BankView>::empty());
        }
        let map = MemoryMap::new(name, bank_list);
        proof {
            assert(parse_descriptor_spec(ifstring@) == Ok::<MemoryMapView, DefParseError>(map@))
                by {
                assert(map@ =~~= parse_descriptor_spec(ifstring@)->Ok_0);
            }
        }
        return Ok(map);
    }
    let parts = split_from(&chars, slash + 1, '/');
    let ghost tail = views_of(parts@);
    proof {
        assert(tail =~~= segs.drop_first());
        assert(tail.skip(0) =~~= tail);
        assert(bank_views(bank_list@) =~= Seq::<BankView>::empty());
        assert(banks_spec(tail, 0) == banks_continue(
            bank_views(bank_list@),
            banks_spec(tail.skip(0), 0),
        ));
    }
    let mut k: usize = 0;
    while k < parts.len()
        invariant
            k <= parts@.len(),
            k as int == 2 * (bank_index as int),
            tail == views_of(parts@),
            tail.len() == parts@.len(),
            banks_spec(tail, 0) == banks_continue(
                bank_views(bank_list@),
                banks_spec(tail.skip(k as int), bank_index as int),
            ),
        decreases parts@.len() - k,
    {
        proof {
            assert(tail.skip(k as int).first() == tail[k as int]);
            assert(tail[k as int] == parts@[k as int]@);
        }
        let addr = match usize_from_chars(&parts[k]) {
            Ok(v) => v,
            Err(_) => {
                proof {
                    assert(banks_spec(tail.skip(k as int), bank_index as int) == Err::<
                        Seq<BankView>,
                        DefParseError,
                    >(DefParseError::AddressParseError));
                }
                return Err(DefParseError::AddressParseError);
            },
        };
        if k + 1 == parts.len() {
            proof {
                assert(tail.skip(k as int).len() == 1);
                assert(banks_spec(tail.skip(k as int), bank_index as int) == Err::<
                    Seq<BankView>,
                    DefParseError,
                >(DefParseError::InvalidBankPartCount));
            }
            return Err(DefParseError::InvalidBankPartCount);
        }
        proof {
            assert(tail.skip(k as int)[1] == tail[k as int + 1]);
            assert(tail[k as int + 1] == parts@[k as int + 1]@);
        }
        let toks = split_from(&parts[k + 1], 0, ',');
        let ghost ttoks = views_of(toks@);
        proof {
            assert(parts@[k as int + 1]@.skip(0) =~= parts@[k as int + 1]@);
            assert(ttoks == split_on(tail.skip(k as int)[1], ','));
            assert(ttoks.skip(0) =~~= ttoks);
        }
        let mut sector_list: Vec<Sector> = Vec::new();
        let mut sector_index: usize = 0;
        let mut sector_address: usize = addr;
        let mut j: usize = 0;
        proof {
            assert(sector_views(sector_list@) =~= Seq::<SectorView>::empty());
            assert(layout_list_spec(ttoks, 0, addr as int) == sectors_continue(
                sector_views(sector_list@),
                layout_list_spec(ttoks.skip(0), 0, addr as int),
            ));
        }
        while j < toks.len()
            invariant
                j <= toks@.len(),
                ttoks == views_of(toks@),
                ttoks.len() == toks@.len(),
                tail == views_of(parts@),
                tail.len() == parts@.len(),
                k as int + 1 < tail.len(),
                k as int == 2 * (bank_index as int),
                ttoks == split_on(tail.skip(k as int)[1], ','),
                numeric_ok(tail.skip(k as int).first()),
                addr as int == numeric_value(tail.skip(k as int).first()),
                banks_spec(tail, 0) == banks_continue(
                    bank_views(bank_list@),
                    banks_spec(tail.skip(k as int), bank_index as int),
                ),
                layout_list_spec(ttoks, 0, addr as int) == sectors_continue(
                    sector_views(sector_list@),
                    layout_list_spec(
                        ttoks.skip(j as int),
                        sector_index as int,
                        sector_address as int,
                    ),
                ),
            decreases toks@.len() - j,
        {
            proof {
                assert(ttoks.skip(j as int).first() == ttoks[j as int]);
                assert(ttoks[j as int] == toks@[j as int]@);
            }
            let sec = match sector_from_token(sector_index, sector_address, &toks[j]) {
                Ok(s) => s,
                Err(_) => {
                    proof {
                        assert(layout_list_spec(ttoks, 0, addr as int) is None);
                        assert(banks_spec(tail.skip(k as int), bank_index as int) == Err::<
                            Seq<BankView>,
                            DefParseError,
                        >(DefParseError::InvalidSectorDefinition));
                    }
                    return Err(DefParseError::InvalidSectorDefinition);
                },
            };
            let ni = match sector_index.checked_add(sec.block_count) {
                Some(v) => v,
                None => {
                    proof {
                        assert(layout_list_spec(
                            ttoks.skip(j as int),
                            sector_index as int,
                            sector_address as int,
                        ) is None);
                        assert(layout_list_spec(ttoks, 0, addr as int) is None);
                        assert(banks_spec(tail.skip(k as int), bank_index as int) == Err::<
                            Seq<BankView>,
                            DefParseError,
                        >(DefParseError::InvalidSectorDefinition));
                    }
                    return Err(DefParseError::InvalidSectorDefinition);
                },
            };
            let sz = match sec.block_count.checked_mul(sec.block_size) {
                Some(v) => v,
                None => {
                    proof {
                        assert(layout_list_spec(
                            ttoks.skip(j as int),
                            sector_index as int,
                            sector_address as int,
                        ) is None);
                        assert(layout_list_spec(ttoks, 0, addr as int) is None);
                        assert(banks_spec(tail.skip(k as int), bank_index as int) == Err::<
                            Seq<BankView>,
                            DefParseError,
                        >(DefParseError::InvalidSectorDefinition));
                    }
                    return Err(DefParseError::InvalidSectorDefinition);
                },
            };
            let na = match sector_address.checked_add(sz) {
                Some(v) => v,
                None => {
                    proof {
                        assert(layout_list_spec(
                            ttoks.skip(j as int),
                            sector_index as int,
                            sector_address as int,
                        ) is None);
                        assert(layout_list_spec(ttoks, 0, addr as int) is None);
                        assert(banks_spec(tail.skip(k as int), bank_index as int) == Err::<
                            Seq<BankView>,
                            DefParseError,
                        >(DefParseError::InvalidSectorDefinition));
                    }
                    return Err(DefParseError::InvalidSectorDefinition);
                },
            };
            let ghost sl = sector_list@;
            sector_list.push(sec);
            proof {
                lemma_sector_views_push(sl, sec);
                assert(ttoks.skip(j as int).drop_first() =~= ttoks.skip(j as int + 1));
                let rest = layout_list_spec(ttoks.skip(j as int + 1), ni as int, na as int);
                if rest is Some {
                    assert(sector_views(sl) + (seq![sec@] + rest->Some_0) =~= sector_views(
                        sector_list@,
                    ) + rest->Some_0);
                }
            }
            sector_index = ni;
            sector_address = na;
            j += 1;
        }
        proof {
            assert(ttoks.skip(toks@.len() as int).len() == 0);
            assert(sector_views(sector_list@) + Seq::<SectorView>::empty() =~= sector_views(
                sector_list@,
            ));
            assert(layout_list_spec(ttoks, 0, addr as int) == Some(sector_views(sector_list@)));
        }
        let ghost sv = sector_views(sector_list@);
        let ghost pv = bank_list@;
        let bank = Bank::from_sectors(bank_index, sector_list);
        bank_list.push(bank);
        proof {
            lemma_bank_views_push(pv, bank);
            assert(bank@ =~~= BankView {
                index: bank_index as int,
                address: if sv.len() > 0 {
                    sv.first().address
                } else {
                    0
                },
                sectors: sv,
            });
            assert(tail.skip(k as int).skip(2) =~~= tail.skip(k as int + 2));
            let rest = banks_spec(tail.skip(k as int + 2), bank_index as int + 1);
            assert(banks_spec(tail.skip(k as int), bank_index as int) == banks_continue(
                seq![bank@],
                rest,
            ));
            if rest is Ok {
                assert(bank_views(pv) + (seq![bank@] + rest->Ok_0) =~= bank_views(bank_list@)
                    + rest->Ok_0);
            }
        }
        bank_index = bank_index + 1;
        k = k + 2;
    }
    proof {
        assert(tail.skip(parts@.len() as int).len() == 0);
        assert(bank_views(bank_list@) + Seq::<BankView>::empty() =~= bank_views(bank_list@));
        assert(banks_spec(tail, 0) == Ok::<Seq<BankView>, DefParseError>(bank_views(bank_list@)));
    }
    let map = MemoryMap::new(name, bank_list);
    proof {
        assert(parse_descriptor_spec(ifstring@) == Ok::<MemoryMapView, DefParseError>(map@)) by {
            assert(map@ =~~= parse_descriptor_spec(ifstring@)->Ok_0);
        }
        lemma_banks_spec_chained(segs.drop_first(), 0);
    }
    Ok(map)
}

} // verus!
