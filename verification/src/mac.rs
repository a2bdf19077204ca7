//! Reading a MAC address: the text is cut into groups at each colon, and
//! every group that is a hexadecimal byte contributes that byte.

use vstd::prelude::*;

verus! {

/// The character that separates the groups of a MAC address.
pub const GROUP_SEPARATOR: char = ':';

/// The value of a hexadecimal digit, in either case; `None` for any other
/// character.
pub open spec fn hex_digit(c: char) -> Option<u8> {
    if '0' <= c && c <= '9' {
        Some((c as u32 - '0' as u32) as u8)
    } else if 'a' <= c && c <= 'f' {
        Some((c as u32 - 'a' as u32 + 10) as u8)
    } else if 'A' <= c && c <= 'F' {
        Some((c as u32 - 'A' as u32 + 10) as u8)
    } else {
        None
    }
}

/// Computes [`hex_digit`].
fn hex_digit_of(c: char) -> (digit: Option<u8>)
    ensures
        digit == hex_digit(c),
        digit matches Some(d) ==> d < 16,
{
    if '0' <= c && c <= '9' {
        Some((c as u32 - '0' as u32) as u8)
    } else if 'a' <= c && c <= 'f' {
        Some((c as u32 - 'a' as u32 + 10) as u8)
    } else if 'A' <= c && c <= 'F' {
        Some((c as u32 - 'A' as u32 + 10) as u8)
    } else {
        None
    }
}

/// The digits of a group: the group itself, without one leading plus sign.
pub open spec fn digits_of(group: Seq<char>) -> Seq<char> {
    if group.len() > 0 && group[0] == '+' {
        group.drop_first()
    } else {
        group
    }
}

/// Every character of `digits` is a hexadecimal digit.
pub open spec fn all_hex(digits: Seq<char>) -> bool {
    forall|i: int| 0 <= i < digits.len() ==> hex_digit(#[trigger] digits[i]) is Some
}

/// The number that `digits` writes in base sixteen, most significant digit
/// first.
pub open spec fn hex_value(digits: Seq<char>) -> nat
    decreases digits.len(),
{
    if digits.len() == 0 {
        0
    } else {
        16 * hex_value(digits.drop_last()) + hex_digit(digits.last()).unwrap() as nat
    }
}

/// The byte that a group stands for: an optional plus sign, then one or more
/// hexadecimal digits whose value is at most 255. Leading zeros are allowed.
/// Any other group stands for no byte.
pub open spec fn parse_hex_byte(group: Seq<char>) -> Option<u8> {
    let digits = digits_of(group);
    if digits.len() > 0 && all_hex(digits) && hex_value(digits) <= 0xff {
        Some(hex_value(digits) as u8)
    } else {
        None
    }
}

/// The groups of `text`: the pieces between its colons, in order. A text
/// with n colons has n + 1 groups, some of which may be empty.
pub open spec fn groups_of(text: Seq<char>) -> Seq<Seq<char>>
    decreases text.len(),
{
    if text.len() == 0 {
        seq![Seq::<char>::empty()]
    } else {
        let before = groups_of(text.drop_last());
        if text.last() == GROUP_SEPARATOR {
            before.push(Seq::<char>::empty())
        } else {
            before.drop_last().push(before.last().push(text.last()))
        }
    }
}

/// What a parsed group adds to the bytes read so far.
pub open spec fn byte_of(group: Seq<char>) -> Seq<u8> {
    match parse_hex_byte(group) {
        Some(b) => seq![b],
        None => Seq::<u8>::empty(),
    }
}

/// The bytes of the groups that stand for one, in the order of the groups.
pub open spec fn kept_bytes(groups: Seq<Seq<char>>) -> Seq<u8>
    decreases groups.len(),
{
    if groups.len() == 0 {
        Seq::<u8>::empty()
    } else {
        kept_bytes(groups.drop_last()) + byte_of(groups.last())
    }
}

/// The bytes that a MAC address text yields: each group is read as a
/// hexadecimal byte, and a group that is none is passed over.
pub open spec fn mac_bytes(text: Seq<char>) -> Seq<u8> {
    kept_bytes(groups_of(text))
}

/// A text always has at least one group.
pub proof fn lemma_groups_nonempty(text: Seq<char>)
    ensures
        groups_of(text).len() >= 1,
    decreases text.len(),
{
    if text.len() > 0 {
        lemma_groups_nonempty(text.drop_last());
    }
}

/// How the groups change when one more character is read.
proof fn lemma_groups_push(text: Seq<char>, c: char)
    ensures
        groups_of(text).len() >= 1,
        c == GROUP_SEPARATOR ==> groups_of(text.push(c)) == groups_of(text).push(
            Seq::<char>::empty(),
        ),
        c != GROUP_SEPARATOR ==> groups_of(text.push(c)) == groups_of(text).drop_last().push(
            groups_of(text).last().push(c),
        ),
{
    lemma_groups_nonempty(text);
    assert(text.push(c).drop_last() =~= text);
}

/// How the digits of a group change when one more character is read.
proof fn lemma_digits_push(group: Seq<char>, c: char)
    ensures
        group.len() == 0 && c == '+' ==> digits_of(group.push(c)) == Seq::<char>::empty(),
        !(group.len() == 0 && c == '+') ==> digits_of(group.push(c)) == digits_of(group).push(c),
{
    if group.len() == 0 {
        assert(group.push(c).drop_first() =~= Seq::<char>::empty());
        assert(group.push(c) =~= digits_of(group).push(c));
    } else {
        assert(group.push(c).drop_first() =~= group.drop_first().push(c));
    }
}

/// How validity and value of a run of digits change with one more digit.
proof fn lemma_hex_push(digits: Seq<char>, c: char)
    ensures
        all_hex(digits.push(c)) <==> all_hex(digits) && hex_digit(c) is Some,
        hex_value(digits.push(c)) == 16 * hex_value(digits) + hex_digit(c).unwrap() as nat,
{
    let longer = digits.push(c);
    assert(longer.drop_last() =~= digits);
    if all_hex(longer) {
        assert(hex_digit(longer[digits.len() as int]) is Some);
        assert forall|i: int| 0 <= i < digits.len() implies hex_digit(
            #[trigger] digits[i],
        ) is Some by {
            assert(longer[i] == digits[i]);
        }
    }
    if all_hex(digits) && hex_digit(c) is Some {
        assert forall|i: int| 0 <= i < longer.len() implies hex_digit(
            #[trigger] longer[i],
        ) is Some by {
            if i < digits.len() {
                assert(longer[i] == digits[i]);
            }
        }
    }
}

/// Reads one group character by character.
struct GroupReader {
    /// The group has at least one character.
    started: bool,
    /// The group has at least one character besides a leading plus sign.
    has_digits: bool,
    /// All digits so far are hexadecimal and their value is at most 255.
    fits: bool,
    /// The value of the digits so far, while `fits` holds.
    value: u8,
}

impl GroupReader {
    /// The reader has read exactly `group`.
    spec fn has_read(self, group: Seq<char>) -> bool {
        let digits = digits_of(group);
        &&& self.started == (group.len() > 0)
        &&& self.has_digits == (digits.len() > 0)
        &&& self.fits == (all_hex(digits) && hex_value(digits) <= 0xff)
        &&& self.fits ==> self.value == hex_value(digits)
    }

    fn new() -> (reader: GroupReader)
        ensures
            reader.has_read(Seq::<char>::empty()),
    {
        GroupReader { started: false, has_digits: false, fits: true, value: 0 }
    }

    fn read(&mut self, c: char, Ghost(group): Ghost<Seq<char>>)
        requires
            old(self).has_read(group),
        ensures
            final(self).has_read(group.push(c)),
    {
        proof {
            lemma_digits_push(group, c);
            lemma_hex_push(digits_of(group), c);
        }
        if !self.started && c == '+' {
            self.started = true;
        } else {
            self.started = true;
            self.has_digits = true;
            match hex_digit_of(c) {
                Some(d) => {
                    if self.fits && self.value < 16 {
                        self.value = self.value * 16 + d;
                    } else {
                        self.fits = false;
                    }
                },
                None => {
                    self.fits = false;
                },
            }
        }
    }

    fn finish(&self, Ghost(group): Ghost<Seq<char>>) -> (byte: Option<u8>)
        requires
            self.has_read(group),
        ensures
            byte == parse_hex_byte(group),
    {
        if self.has_digits && self.fits {
            Some(self.value)
        } else {
            None
        }
    }
}

/// Reads the bytes of a MAC address. The text is cut at each colon, each
/// group is read as a hexadecimal byte, and a group that is not one is
/// passed over without an error.
pub fn parse_mac(mac: &str) -> (bytes: Vec<u8>)
    ensures
        bytes@ == mac_bytes(mac@),
{
    let mut bytes: Vec<u8> = Vec::new();
    let mut reader = GroupReader::new();
    proof {
        assert(mac@.take(0) =~= Seq::<char>::empty());
        assert(groups_of(Seq::<char>::empty()).drop_last() =~= Seq::<Seq<char>>::empty());
    }
    for c in it: mac.chars()
        invariant
            it.seq() == mac@,
            bytes@ == kept_bytes(groups_of(mac@.take(it.index())).drop_last()),
            reader.has_read(groups_of(mac@.take(it.index())).last()),
    {
        let ghost seen = mac@.take(it.index());
        let ghost groups = groups_of(seen);
        proof {
            lemma_groups_push(seen, c);
            assert(mac@.take(it.index() + 1) =~= seen.push(c));
        }
        if c == GROUP_SEPARATOR {
            match reader.finish(Ghost(groups.last())) {
                Some(b) => {
                    bytes.push(b);
                },
                None => {},
            }
            reader = GroupReader::new();
            proof {
                assert(groups.push(Seq::<char>::empty()).drop_last() =~= groups);
            }
        } else {
            reader.read(c, Ghost(groups.last()));
            proof {
                assert(groups.drop_last().push(groups.last().push(c)).drop_last()
                    =~= groups.drop_last());
            }
        }
    }
    proof {
        assert(mac@.take(mac@.len() as int) =~= mac@);
        lemma_groups_nonempty(mac@);
    }
    match reader.finish(Ghost(groups_of(mac@).last())) {
        Some(b) => {
            bytes.push(b);
        },
        None => {},
    }
    bytes
}

/// The groups written one after the other, with a colon between
/// neighbours.
pub open spec fn joined(groups: Seq<Seq<char>>) -> Seq<char>
    decreases groups.len(),
{
    if groups.len() == 0 {
        Seq::<char>::empty()
    } else if groups.len() == 1 {
        groups[0]
    } else {
        joined(groups.drop_last()) + seq![GROUP_SEPARATOR] + groups.last()
    }
}

/// Cutting a text into groups loses nothing but the colons: no group holds
/// one, and the groups joined with colons are the text again.
pub proof fn lemma_groups_rejoin(text: Seq<char>)
    ensures
        joined(groups_of(text)) == text,
        forall|i: int|
            0 <= i < groups_of(text).len() ==> !(#[trigger] groups_of(text)[i]).contains(
                GROUP_SEPARATOR,
            ),
    decreases text.len(),
{
    let groups = groups_of(text);
    if text.len() == 0 {
        assert(joined(groups) =~= text);
    } else {
        let shorter = text.drop_last();
        let c = text.last();
        let before = groups_of(shorter);
        lemma_groups_rejoin(shorter);
        lemma_groups_nonempty(shorter);
        assert(shorter.push(c) =~= text);
        if c == GROUP_SEPARATOR {
            assert(groups.drop_last() =~= before);
            assert(joined(groups) =~= text);
            assert forall|i: int| 0 <= i < groups.len() implies !(#[trigger] groups[i]).contains(
                GROUP_SEPARATOR,
            ) by {
                if i < before.len() {
                    assert(groups[i] == before[i]);
                }
            }
        } else {
            let grown = before.last().push(c);
            assert(groups.drop_last() =~= before.drop_last());
            assert(groups.last() == grown);
            if before.len() == 1 {
                assert(joined(groups) =~= text);
            } else {
                assert(joined(before.drop_last()) + seq![GROUP_SEPARATOR] + grown =~= (joined(
                    before.drop_last(),
                ) + seq![GROUP_SEPARATOR] + before.last()).push(c));
            }
            assert forall|i: int| 0 <= i < groups.len() implies !(#[trigger] groups[i]).contains(
                GROUP_SEPARATOR,
            ) by {
                if i < before.len() - 1 {
                    assert(groups[i] == before[i]);
                } else {
                    assert(groups[i] == grown);
                    assert(!before[before.len() - 1].contains(GROUP_SEPARATOR));
                    if grown.contains(GROUP_SEPARATOR) {
                        let k = choose|k: int| 0 <= k < grown.len() && grown[k] == GROUP_SEPARATOR;
                        assert(k < before.last().len());
                        assert(before.last()[k] == GROUP_SEPARATOR);
                    }
                }
            }
        }
    }
}

/// A MAC address in the usual form: six groups, each a hexadecimal byte.
pub open spec fn is_mac_address(text: Seq<char>) -> bool {
    &&& groups_of(text).len() == 6
    &&& forall|i: int| 0 <= i < 6 ==> parse_hex_byte(#[trigger] groups_of(text)[i]) is Some
}

/// A text without a colon is a single group: itself.
pub proof fn lemma_single_group(group: Seq<char>)
    requires
        !group.contains(GROUP_SEPARATOR),
    ensures
        groups_of(group) == seq![group],
    decreases group.len(),
{
    if group.len() == 0 {
        assert(group =~= Seq::<char>::empty());
    } else {
        let shorter = group.drop_last();
        if shorter.contains(GROUP_SEPARATOR) {
            let i = choose|i: int| 0 <= i < shorter.len() && shorter[i] == GROUP_SEPARATOR;
            assert(group[i] == GROUP_SEPARATOR);
        }
        assert(group[group.len() - 1] == group.last());
        lemma_single_group(shorter);
        assert(shorter.push(group.last()) =~= group);
        assert(seq![shorter].drop_last().push(group) =~= seq![group]);
    }
}

/// Joining two texts with a colon puts the groups of the second after the
/// groups of the first.
pub proof fn lemma_groups_of_joined(left: Seq<char>, right: Seq<char>)
    ensures
        groups_of(left + seq![GROUP_SEPARATOR] + right) == groups_of(left) + groups_of(right),
    decreases right.len(),
{
    let joined = left + seq![GROUP_SEPARATOR] + right;
    let gl = groups_of(left);
    if right.len() == 0 {
        assert(joined =~= left.push(GROUP_SEPARATOR));
        lemma_groups_push(left, GROUP_SEPARATOR);
        assert(gl.push(Seq::<char>::empty()) =~= gl + seq![Seq::<char>::empty()]);
    } else {
        let r = right.drop_last();
        let c = right.last();
        let gr = groups_of(r);
        lemma_groups_of_joined(left, r);
        assert(joined =~= (left + seq![GROUP_SEPARATOR] + r).push(c));
        assert(right =~= r.push(c));
        lemma_groups_push(left + seq![GROUP_SEPARATOR] + r, c);
        lemma_groups_push(r, c);
        if c == GROUP_SEPARATOR {
            assert((gl + gr).push(Seq::<char>::empty()) =~= gl + gr.push(Seq::<char>::empty()));
        } else {
            assert((gl + gr).drop_last().push((gl + gr).last().push(c)) =~= gl
                + gr.drop_last().push(gr.last().push(c)));
        }
    }
}

/// The bytes kept from two runs of groups, one after the other, are the
/// bytes kept from the first followed by those kept from the second.
pub proof fn lemma_kept_bytes_concat(first: Seq<Seq<char>>, second: Seq<Seq<char>>)
    ensures
        kept_bytes(first + second) == kept_bytes(first) + kept_bytes(second),
    decreases second.len(),
{
    if second.len() == 0 {
        assert(first + second =~= first);
        assert(kept_bytes(first) + kept_bytes(second) =~= kept_bytes(first));
    } else {
        assert((first + second).drop_last() =~= first + second.drop_last());
        assert((first + second).last() == second.last());
        lemma_kept_bytes_concat(first, second.drop_last());
        assert(kept_bytes(first) + kept_bytes(second.drop_last()) + byte_of(second.last())
            =~= kept_bytes(first) + (kept_bytes(second.drop_last()) + byte_of(second.last())));
    }
}

/// Where every group stands for a byte, every group is kept: there are as
/// many bytes as groups, and each byte is the value of the group at its
/// place.
pub proof fn lemma_all_groups_kept(groups: Seq<Seq<char>>)
    requires
        forall|i: int| 0 <= i < groups.len() ==> parse_hex_byte(#[trigger] groups[i]) is Some,
    ensures
        kept_bytes(groups).len() == groups.len(),
        forall|i: int|
            0 <= i < groups.len() ==> #[trigger] kept_bytes(groups)[i] == parse_hex_byte(
                groups[i],
            ).unwrap(),
    decreases groups.len(),
{
    if groups.len() > 0 {
        let front = groups.drop_last();
        assert forall|i: int| 0 <= i < front.len() implies parse_hex_byte(
            #[trigger] front[i],
        ) is Some by {
            assert(front[i] == groups[i]);
        }
        lemma_all_groups_kept(front);
        assert(parse_hex_byte(groups[groups.len() - 1]) is Some);
        assert forall|i: int| 0 <= i < groups.len() implies #[trigger] kept_bytes(groups)[i]
            == parse_hex_byte(groups[i]).unwrap() by {
            if i < front.len() {
                assert(kept_bytes(groups)[i] == kept_bytes(front)[i]);
                assert(front[i] == groups[i]);
            }
        }
    }
}

/// Joining two texts with a colon yields the bytes of the first followed by
/// the bytes of the second.
pub proof fn lemma_mac_bytes_joined(left: Seq<char>, right: Seq<char>)
    ensures
        mac_bytes(left + seq![GROUP_SEPARATOR] + right) == mac_bytes(left) + mac_bytes(right),
{
    lemma_groups_of_joined(left, right);
    lemma_kept_bytes_concat(groups_of(left), groups_of(right));
}

/// A text without a colon yields the byte it stands for, or nothing.
pub proof fn lemma_mac_bytes_of_group(group: Seq<char>)
    requires
        !group.contains(GROUP_SEPARATOR),
    ensures
        mac_bytes(group) == byte_of(group),
{
    lemma_single_group(group);
    assert(seq![group].drop_last() =~= Seq::<Seq<char>>::empty());
    assert(kept_bytes(Seq::<Seq<char>>::empty()) + byte_of(group) =~= byte_of(group));
}

/// A group that is no hexadecimal byte leaves no trace: the text yields the
/// same bytes with the group as without it, wherever the group stands.
pub proof fn lemma_unreadable_group_is_dropped(
    before: Seq<char>,
    group: Seq<char>,
    after: Seq<char>,
)
    requires
        !group.contains(GROUP_SEPARATOR),
        parse_hex_byte(group) is None,
    ensures
        mac_bytes(group) == Seq::<u8>::empty(),
        mac_bytes(before + seq![GROUP_SEPARATOR] + group) == mac_bytes(before),
        mac_bytes(group + seq![GROUP_SEPARATOR] + after) == mac_bytes(after),
        mac_bytes(before + seq![GROUP_SEPARATOR] + group + seq![GROUP_SEPARATOR] + after)
            == mac_bytes(before + seq![GROUP_SEPARATOR] + after),
{
    lemma_mac_bytes_of_group(group);
    lemma_mac_bytes_joined(before, group);
    lemma_mac_bytes_joined(group, after);
    lemma_mac_bytes_joined(before + seq![GROUP_SEPARATOR] + group, after);
    lemma_mac_bytes_joined(before, after);
    assert(mac_bytes(before) + Seq::<u8>::empty() =~= mac_bytes(before));
    assert(Seq::<u8>::empty() + mac_bytes(after) =~= mac_bytes(after));
}

/// A MAC address of six hexadecimal groups yields six bytes, the values of
/// its groups in order.
pub proof fn lemma_mac_address_bytes(text: Seq<char>)
    requires
        is_mac_address(text),
    ensures
        mac_bytes(text).len() == 6,
        forall|i: int|
            0 <= i < 6 ==> #[trigger] mac_bytes(text)[i] == parse_hex_byte(
                groups_of(text)[i],
            ).unwrap(),
{
    lemma_all_groups_kept(groups_of(text));
}

} // verus!
