//! Fully qualified domain names.

use vstd::prelude::*;
use crate::ip::{IpAddr, Ipv4Addr, Ipv6Addr};
use crate::text::{decimal, join};

verus! {

/// The bytes of the labels of a name.
pub open spec fn bytes_of(labels: Seq<Vec<u8>>) -> Seq<Seq<u8>> {
    Seq::new(labels.len(), |i: int| labels[i]@)
}

/// The number of bytes in labels, with one more for each of them.
pub open spec fn name_len(labels: Seq<Seq<u8>>) -> nat
    decreases labels.len(),
{
    if labels.len() == 0 {
        0
    } else {
        name_len(labels.drop_last()) + labels.last().len() + 1
    }
}

/// Whether labels can be those of a name: each has from one to 63 bytes, and all of them fit in 255.
pub open spec fn well_formed(labels: Seq<Seq<u8>>) -> bool {
    &&& forall|i: int| 0 <= i < labels.len() ==> 1 <= (#[trigger] labels[i]).len() <= 63
    &&& name_len(labels) <= 255
}

/// A byte with upper case ASCII letters turned to lower case.
pub open spec fn fold_byte(b: u8) -> u8 {
    if 65 <= b <= 90 {
        (b + 32) as u8
    } else {
        b
    }
}

/// A label in lower case.
pub open spec fn fold_label(label: Seq<u8>) -> Seq<u8> {
    Seq::new(label.len(), |i: int| fold_byte(label[i]))
}

/// A name in lower case. Two names are the same name when this is equal for both.
pub open spec fn fold(labels: Seq<Seq<u8>>) -> Seq<Seq<u8>> {
    Seq::new(labels.len(), |i: int| fold_label(labels[i]))
}

/// Whether a name lies in a zone: its last labels are those of the zone.
pub open spec fn in_zone(zone: Seq<Seq<u8>>, name: Seq<Seq<u8>>) -> bool {
    zone.len() <= name.len() && fold(name).subrange(name.len() - zone.len(), name.len() as int)
        == fold(zone)
}

/// Whether two bytes are the same, or the same ASCII letter in upper and in lower case.
pub open spec fn same_letter(a: u8, b: u8) -> bool {
    a == b || 'A' <= a as char <= 'Z' && b == a + 32 || 'A' <= b as char <= 'Z' && a == b + 32
}

/// Two names are the same name exactly when they have the same labels but for the case of ASCII
/// letters.
pub proof fn law_only_case_does_not_matter(a: Seq<Seq<u8>>, b: Seq<Seq<u8>>)
    ensures
        fold(a) == fold(b) <==> a.len() == b.len() && (forall|i: int|
            0 <= i < a.len() ==> (#[trigger] a[i]).len() == b[i].len()) && (forall|i: int, j: int|
            0 <= i < a.len() && 0 <= j < a[i].len() ==> same_letter(#[trigger] a[i][j], b[i][j])),
{
    if fold(a) == fold(b) {
        assert(fold(a).len() == fold(b).len());
        assert forall|i: int| 0 <= i < a.len() implies (#[trigger] a[i]).len() == b[i].len() by {
            assert(fold(a)[i] == fold(b)[i]);
            assert(fold_label(a[i]).len() == fold_label(b[i]).len());
        }
        assert forall|i: int, j: int| 0 <= i < a.len() && 0 <= j < a[i].len() implies same_letter(
            #[trigger] a[i][j],
            b[i][j],
        ) by {
            assert(fold(a)[i] == fold(b)[i]);
            assert(fold_label(a[i])[j] == fold_label(b[i])[j]);
        }
    }
    if a.len() == b.len() && (forall|i: int|
        0 <= i < a.len() ==> (#[trigger] a[i]).len() == b[i].len()) && (forall|i: int, j: int|
        0 <= i < a.len() && 0 <= j < a[i].len() ==> same_letter(#[trigger] a[i][j], b[i][j])) {
        assert forall|i: int| 0 <= i < a.len() implies fold(a)[i] == fold(b)[i] by {
            assert(a[i].len() == b[i].len());
            assert forall|j: int| 0 <= j < a[i].len() implies fold_label(a[i])[j] == fold_label(
                b[i],
            )[j] by {
                assert(same_letter(a[i][j], b[i][j]));
            }
            assert(fold_label(a[i]) =~= fold_label(b[i]));
        }
        assert(fold(a) =~= fold(b));
    }
}

/// A name lies in a zone exactly when it ends in the labels of the zone, whatever their case.
pub proof fn law_names_in_a_zone_end_in_it(zone: Seq<Seq<u8>>, name: Seq<Seq<u8>>)
    ensures
        in_zone(zone, name) <==> exists|k: int|
            0 <= k <= name.len() && fold(#[trigger] name.skip(k)) == fold(zone),
{
    if in_zone(zone, name) {
        let k = name.len() - zone.len();
        assert(fold(name.skip(k)) =~= fold(name).subrange(k, name.len() as int));
    }
    if exists|k: int| 0 <= k <= name.len() && fold(#[trigger] name.skip(k)) == fold(zone) {
        let k = choose|k: int|
            0 <= k <= name.len() && fold(#[trigger] name.skip(k)) == fold(zone);
        assert(fold(name.skip(k)).len() == fold(zone).len());
        assert(fold(name.skip(k)) =~= fold(name).subrange(k, name.len() as int));
    }
}

/// The number of labels, a star at the start not counted.
pub open spec fn label_count(labels: Seq<Seq<u8>>) -> nat {
    if labels.len() > 0 && labels[0] == seq![42u8] {
        (labels.len() - 1) as nat
    } else {
        labels.len()
    }
}

/// The last so many labels of a name, or all where it has fewer.
pub open spec fn last_labels(labels: Seq<Seq<u8>>, count: nat) -> Seq<Seq<u8>> {
    if count > labels.len() {
        labels
    } else {
        labels.subrange(labels.len() - count, labels.len() as int)
    }
}

/// The characters of bytes that are ASCII.
pub open spec fn ascii_text(bytes: Seq<u8>) -> Seq<char> {
    Seq::new(bytes.len(), |i: int| bytes[i] as char)
}

/// The bytes of characters that are ASCII.
pub open spec fn ascii_bytes(text: Seq<char>) -> Seq<u8> {
    Seq::new(text.len(), |i: int| text[i] as u8)
}

/// Whether labels are made of lower case ASCII letters and digits only.
pub open spec fn plain(labels: Seq<Seq<u8>>) -> bool {
    forall|i: int, j: int|
        0 <= i < labels.len() && 0 <= j < labels[i].len() ==> 97 <= #[trigger] labels[i][j] <= 122
            || 48 <= labels[i][j] <= 57
}

/// Plain labels with dots between them.
pub open spec fn plain_text(labels: Seq<Seq<u8>>) -> Seq<char> {
    join(Seq::new(labels.len(), |i: int| ascii_text(labels[i])), seq!['.'])
}

/// The labels that a text stands for, if it is a name.
pub uninterp spec fn name_from_text(text: Seq<char>) -> Option<Seq<Seq<u8>>>;

/// The labels that a text stands for if it is a name in the strict sense, else what is wrong with it.
pub uninterp spec fn host_parsed(text: Seq<char>) -> Result<Seq<Seq<u8>>, Seq<char>>;

/// The labels that a text stands for, if it is a name in the strict sense.
pub open spec fn host_from_text(text: Seq<char>) -> Option<Seq<Seq<u8>>> {
    match host_parsed(text) {
        Ok(labels) => Some(labels),
        Err(_) => None,
    }
}

/// A fully qualified name as it is written.
pub uninterp spec fn name_text(labels: Seq<Seq<u8>>) -> Seq<char>;

/// A name as it is written in ASCII, without a dot at its end.
pub uninterp spec fn ascii_name_text(labels: Seq<Seq<u8>>) -> Seq<char>;

/// The address that a name in the reverse lookup zones stands for.
pub uninterp spec fn arpa_address(labels: Seq<Seq<u8>>) -> Option<IpAddr>;

/// The digits of the last so many half bytes of an address, lowest first, as labels.
pub open spec fn nibble_labels(bits: u128, count: nat) -> Seq<Seq<u8>>
    decreases count,
{
    if count == 0 {
        Seq::empty()
    } else {
        let d = bits % 16;
        seq![seq![(if d < 10 { 48 + d } else { 87 + d }) as u8]] + nibble_labels(
            bits / 16,
            (count - 1) as nat,
        )
    }
}

/// The name that a reverse lookup of an address asks for.
pub open spec fn reverse_labels(ip: IpAddr) -> Seq<Seq<u8>> {
    match ip {
        IpAddr::V4(ip) => seq![
            ascii_bytes(decimal(crate::ip::octet(ip, 3))),
            ascii_bytes(decimal(crate::ip::octet(ip, 2))),
            ascii_bytes(decimal(crate::ip::octet(ip, 1))),
            ascii_bytes(decimal(crate::ip::octet(ip, 0))),
            ascii_bytes("in-addr"@),
            ascii_bytes("arpa"@),
        ],
        IpAddr::V6(ip) => nibble_labels(ip.bits, 32) + seq![
            ascii_bytes("ip6"@),
            ascii_bytes("arpa"@),
        ],
    }
}

/// Reads a name with `Name::from_str`. The labels are named; they are always well formed. A text
/// of plain labels with dots between them, with or without one at its end, has those labels.
#[verifier::external_body]
fn parse_name(s: &str) -> (r: Option<Vec<Vec<u8>>>)
    ensures
        match r {
            Some(labels) => name_from_text(s@) == Some(bytes_of(labels@)) && well_formed(
                bytes_of(labels@),
            ),
            None => name_from_text(s@) is None,
        },
        forall|labels: Seq<Seq<u8>>|
            plain(labels) && well_formed(labels) && (s@ == #[trigger] plain_text(labels) || s@
                == plain_text(labels).push('.')) ==> r is Some && bytes_of(r->0@) == labels,
{
    let name = <hickory_server::proto::rr::Name as std::str::FromStr>::from_str(s).ok()?;
    Some(name.iter().map(|label| label.to_vec()).collect())
}

/// Reads a name with `Name::from_utf8`. The result is named: the labels, which are always well
/// formed, or the message that the error is displayed as. A text of plain labels with dots between
/// them, with or without one at its end, has those labels.
#[verifier::external_body]
fn parse_host(s: &str) -> (r: Result<Vec<Vec<u8>>, String>)
    ensures
        match r {
            Ok(labels) => host_parsed(s@) == Ok::<Seq<Seq<u8>>, Seq<char>>(bytes_of(labels@))
                && well_formed(bytes_of(labels@)),
            Err(message) => host_parsed(s@) == Err::<Seq<Seq<u8>>, Seq<char>>(message@),
        },
        forall|labels: Seq<Seq<u8>>|
            plain(labels) && well_formed(labels) && (s@ == #[trigger] plain_text(labels) || s@
                == plain_text(labels).push('.')) ==> r is Ok && bytes_of(r->Ok_0@) == labels,
{
    match hickory_server::proto::rr::Name::from_utf8(s) {
        Ok(name) => Ok(name.iter().map(|label| label.to_vec()).collect()),
        Err(e) => Err(e.to_string()),
    }
}

/// Writes a fully qualified name with the `Display` of `Name`. The text is named; that of plain
/// labels has a dot after each of them.
#[verifier::external_body]
fn format_name(labels: &Vec<Vec<u8>>) -> (r: String)
    requires
        well_formed(bytes_of(labels@)),
    ensures
        r@ == name_text(bytes_of(labels@)),
        plain(bytes_of(labels@)) ==> r@ == plain_text(bytes_of(labels@)).push('.'),
{
    let labels = labels.iter().map(|label| label.as_slice());
    hickory_server::proto::rr::Name::from_labels(labels).unwrap().to_string()
}

/// Writes a name with `Name::to_ascii` after `Name::set_fqdn` has taken the dot off its end. The
/// text is named; that of plain labels has dots between them.
#[verifier::external_body]
fn format_ascii(labels: &Vec<Vec<u8>>) -> (r: String)
    requires
        well_formed(bytes_of(labels@)),
    ensures
        r@ == ascii_name_text(bytes_of(labels@)),
        plain(bytes_of(labels@)) && labels@.len() > 0 ==> r@ == plain_text(bytes_of(labels@)),
{
    let labels = labels.iter().map(|label| label.as_slice());
    let mut name = hickory_server::proto::rr::Name::from_labels(labels).unwrap();
    name.set_fqdn(false);
    name.to_ascii()
}

/// Reads the address of a reverse lookup with `Name::parse_arpa_name`. The result is named; the
/// name that belongs to an address gives that address, in upper or lower case. The address is taken
/// over through its text, which both kinds of address read back.
#[verifier::external_body]
fn parse_arpa(labels: &Vec<Vec<u8>>) -> (r: Option<IpAddr>)
    requires
        well_formed(bytes_of(labels@)),
    ensures
        r == arpa_address(bytes_of(labels@)),
        forall|ip: IpAddr|
            fold(bytes_of(labels@)) == fold(#[trigger] reverse_labels(ip)) ==> r == Some(ip),
{
    let labels = labels.iter().map(|label| label.as_slice());
    let name = hickory_server::proto::rr::Name::from_labels(labels).unwrap();
    let address = name.parse_arpa_name().ok()?.addr().to_string();
    match address.parse::<hickory_server::proto::rr::rdata::A>() {
        Ok(a) => Some(IpAddr::V4(Ipv4Addr { bits: u32::from(a.0) })),
        Err(_) => {
            let aaaa = address.parse::<hickory_server::proto::rr::rdata::AAAA>().ok()?;
            Some(IpAddr::V6(Ipv6Addr { bits: u128::from(aaaa.0) }))
        },
    }
}

/// Makes the name of a reverse lookup with the `From` that `Name` has for an IPv4 address: the
/// four numbers of the address from the last to the first, then `in-addr` and `arpa`.
#[verifier::external_body]
fn reverse_v4(ip: Ipv4Addr) -> (r: Vec<Vec<u8>>)
    ensures
        bytes_of(r@) == reverse_labels(IpAddr::V4(ip)),
        well_formed(bytes_of(r@)),
{
    let address = hickory_server::proto::rr::rdata::A(ip.bits.into());
    let name = hickory_server::proto::rr::Name::from(address.0);
    name.iter().map(|label| label.to_vec()).collect()
}

/// Makes the name of a reverse lookup with the `From` that `Name` has for an IPv6 address: its
/// half bytes in hexadecimal from the last to the first, then `ip6` and `arpa`.
#[verifier::external_body]
fn reverse_v6(ip: Ipv6Addr) -> (r: Vec<Vec<u8>>)
    ensures
        bytes_of(r@) == reverse_labels(IpAddr::V6(ip)),
        well_formed(bytes_of(r@)),
{
    let address = hickory_server::proto::rr::rdata::AAAA(ip.bits.into());
    let name = hickory_server::proto::rr::Name::from(address.0);
    name.iter().map(|label| label.to_vec()).collect()
}

/// The length of labels put after others.
pub proof fn lemma_name_len_concat(a: Seq<Seq<u8>>, b: Seq<Seq<u8>>)
    ensures
        name_len(a + b) == name_len(a) + name_len(b),
    decreases b.len(),
{
    if b.len() == 0 {
        assert(a + b =~= a);
    } else {
        assert((a + b).drop_last() =~= a + b.drop_last());
        lemma_name_len_concat(a, b.drop_last());
    }
}

/// The name of a host in a domain lies in the zone of that domain.
pub proof fn law_children_are_in_the_zone(host: Seq<Seq<u8>>, zone: Seq<Seq<u8>>)
    ensures
        in_zone(zone, host + zone),
{
    let name = host + zone;
    assert(fold(name).subrange(host.len() as int, name.len() as int) =~= fold(zone));
}

/// A zone within another holds no name that the other does not.
pub proof fn law_zones_nest(outer: Seq<Seq<u8>>, inner: Seq<Seq<u8>>, name: Seq<Seq<u8>>)
    requires
        in_zone(outer, inner),
        in_zone(inner, name),
    ensures
        in_zone(outer, name),
{
    let k = name.len() - inner.len();
    let m = inner.len() - outer.len();
    assert forall|i: int| 0 <= i < outer.len() implies fold(name)[k + m + i] == fold(outer)[i] by {
        assert(fold(inner).subrange(m, inner.len() as int)[i] == fold(outer)[i]);
        assert(fold(name).subrange(k, name.len() as int)[m + i] == fold(inner)[m + i]);
    }
    assert(fold(name).subrange(name.len() - outer.len(), name.len() as int) =~= fold(outer));
}

/// A name has 127 labels at most.
pub proof fn law_few_labels(labels: Seq<Seq<u8>>)
    requires
        well_formed(labels),
    ensures
        labels.len() <= 127,
{
    lemma_label_lengths(labels);
}

/// Each label takes two bytes at least.
proof fn lemma_label_lengths(labels: Seq<Seq<u8>>)
    requires
        forall|i: int| 0 <= i < labels.len() ==> 1 <= (#[trigger] labels[i]).len() <= 63,
    ensures
        name_len(labels) >= 2 * labels.len(),
    decreases labels.len(),
{
    if labels.len() > 0 {
        let front = labels.drop_last();
        assert forall|i: int| 0 <= i < front.len() implies 1 <= (#[trigger] front[i]).len()
            <= 63 by {
            assert(front[i] == labels[i]);
        }
        lemma_label_lengths(front);
        assert(labels.last() == labels[labels.len() - 1]);
    }
}

/// A copy of bytes.
fn copy_bytes(v: &Vec<u8>) -> (r: Vec<u8>)
    ensures
        r@ == v@,
{
    let mut out: Vec<u8> = Vec::new();
    let mut i: usize = 0;
    while i < v.len()
        invariant
            i <= v.len(),
            out@ == v@.take(i as int),
        decreases v.len() - i,
    {
        out.push(v[i]);
        i += 1;
        assert(v@.take(i as int) =~= v@.take(i - 1).push(v@[i - 1]));
    }
    assert(v@.take(i as int) =~= v@);
    out
}

/// Adds a copy of labels, from one of them on, after others.
fn copy_labels(out: &mut Vec<Vec<u8>>, labels: &Vec<Vec<u8>>, from: usize)
    requires
        from <= labels.len(),
    ensures
        bytes_of(final(out)@) == bytes_of(old(out)@) + bytes_of(labels@).subrange(
            from as int,
            labels@.len() as int,
        ),
{
    let ghost start = bytes_of(out@);
    let mut i: usize = from;
    assert(bytes_of(out@) =~= start + bytes_of(labels@).subrange(from as int, from as int));
    while i < labels.len()
        invariant
            from <= i <= labels.len(),
            bytes_of(out@) == start + bytes_of(labels@).subrange(from as int, i as int),
        decreases labels.len() - i,
    {
        let ghost before = bytes_of(out@);
        let label = copy_bytes(&labels[i]);
        out.push(label);
        i += 1;
        assert(bytes_of(out@) =~= before.push(labels@[i - 1]@));
        assert(bytes_of(out@) =~= start + bytes_of(labels@).subrange(from as int, i as int));
    }
}

/// A byte in lower case.
pub(crate) fn lower(b: u8) -> (r: u8)
    ensures
        r == fold_byte(b),
{
    if 65 <= b && b <= 90 {
        b + 32
    } else {
        b
    }
}

/// Whether two labels are the same but for case.
fn same_label(a: &Vec<u8>, b: &Vec<u8>) -> (r: bool)
    ensures
        r == (fold_label(a@) == fold_label(b@)),
{
    if a.len() != b.len() {
        assert(fold_label(a@).len() != fold_label(b@).len());
        return false;
    }
    let mut i: usize = 0;
    while i < a.len()
        invariant
            i <= a.len(),
            a.len() == b.len(),
            forall|j: int| 0 <= j < i ==> fold_byte(a@[j]) == fold_byte(b@[j]),
        decreases a.len() - i,
    {
        if lower(a[i]) != lower(b[i]) {
            assert(fold_label(a@)[i as int] != fold_label(b@)[i as int]);
            return false;
        }
        i += 1;
    }
    assert(fold_label(a@) =~= fold_label(b@));
    true
}

/// Why a text is not a name.
#[derive(Clone, Copy, PartialEq, Eq, Debug, Hash, Structural)]
pub enum NameError {
    /// The text has the form of no name.
    Invalid,
    /// The labels do not fit in one name.
    TooLong,
}

/// What is wrong with a text that is not a name in the strict sense.
#[derive(Debug)]
pub struct HostError {
    pub message: String,
}

/// A fully qualified domain name.
#[derive(Debug)]
pub struct Fqdn {
    labels: Vec<Vec<u8>>,
}

impl View for Fqdn {
    type V = Seq<Seq<u8>>;

    closed spec fn view(&self) -> Seq<Seq<u8>> {
        bytes_of(self.labels@)
    }
}

impl Fqdn {
    #[verifier::type_invariant]
    closed spec fn inv(self) -> bool {
        well_formed(bytes_of(self.labels@))
    }

    /// The name with some labels, if they can be those of a name.
    pub fn from_labels(labels: Vec<Vec<u8>>) -> (r: Option<Fqdn>)
        ensures
            r is Some <==> well_formed(bytes_of(labels@)),
            r matches Some(name) ==> name@ == bytes_of(labels@),
    {
        let mut total: usize = 0;
        let mut i: usize = 0;
        let ghost all = bytes_of(labels@);
        assert(all.take(0) =~= Seq::empty());
        while i < labels.len()
            invariant
                i <= labels.len(),
                all == bytes_of(labels@),
                total == name_len(all.take(i as int)),
                total <= 255,
                forall|j: int| 0 <= j < i ==> 1 <= (#[trigger] all[j]).len() <= 63,
            decreases labels.len() - i,
        {
            let n: usize = labels[i].len();
            assert(all.take(i + 1).drop_last() =~= all.take(i as int));
            assert(all[i as int].len() == n);
            if n == 0 || n > 63 {
                return None;
            }
            total += n + 1;
            i += 1;
            if total > 255 {
                proof {
                    assert(all =~= all.take(i as int) + all.skip(i as int));
                    lemma_name_len_concat(all.take(i as int), all.skip(i as int));
                }
                return None;
            }
        }
        assert(all.take(i as int) =~= all);
        Some(Fqdn { labels })
    }

    /// The labels of the name.
    pub fn labels(&self) -> (r: &Vec<Vec<u8>>)
        ensures
            bytes_of(r@) == self@,
            well_formed(self@),
    {
        proof {
            use_type_invariant(self);
        }
        &self.labels
    }

    /// Whether this is the same name as another. Case does not matter.
    pub fn same(&self, other: &Fqdn) -> (r: bool)
        ensures
            r == (fold(self@) == fold(other@)),
    {
        if self.labels.len() != other.labels.len() {
            assert(fold(self@).len() != fold(other@).len());
            return false;
        }
        let mut i: usize = 0;
        while i < self.labels.len()
            invariant
                i <= self.labels.len(),
                self.labels.len() == other.labels.len(),
                forall|j: int|
                    0 <= j < i ==> fold_label(self.labels@[j]@) == fold_label(other.labels@[j]@),
            decreases self.labels.len() - i,
        {
            if !same_label(&self.labels[i], &other.labels[i]) {
                assert(fold(self@)[i as int] != fold(other@)[i as int]);
                return false;
            }
            i += 1;
        }
        assert(fold(self@) =~= fold(other@));
        true
    }

    /// Whether another name lies in the zone that this name stands for.
    pub fn zone_of(&self, name: &Fqdn) -> (r: bool)
        ensures
            r == in_zone(self@, name@),
    {
        let n: usize = self.labels.len();
        let m: usize = name.labels.len();
        if n > m {
            return false;
        }
        let mut i: usize = 0;
        while i < n
            invariant
                i <= n <= m,
                n == self.labels.len(),
                m == name.labels.len(),
                forall|j: int|
                    0 <= j < i ==> fold_label(self.labels@[j]@) == fold_label(
                        name.labels@[m - n + j]@,
                    ),
            decreases n - i,
        {
            if !same_label(&self.labels[i], &name.labels[m - n + i]) {
                assert(fold(self@)[i as int] != fold(name@).subrange(m - n, m as int)[i as int]);
                return false;
            }
            i += 1;
        }
        assert(fold(name@).subrange(m - n, m as int) =~= fold(self@));
        true
    }

    /// The number of labels, a star at the start not counted.
    pub fn num_labels(&self) -> (r: u8)
        ensures
            r == label_count(self@),
    {
        proof {
            use_type_invariant(self);
            law_few_labels(self@);
        }
        let n: usize = self.labels.len();
        if n > 0 && self.labels[0].len() == 1 && self.labels[0][0] == 42 {
            assert(self@[0] =~= seq![42u8]);
            (n - 1) as u8
        } else {
            n as u8
        }
    }

    /// The name made of the last so many labels.
    pub fn trim_to(&self, num_labels: usize) -> (r: Fqdn)
        ensures
            r@ == last_labels(self@, num_labels as nat),
    {
        proof {
            use_type_invariant(self);
        }
        let n: usize = self.labels.len();
        if num_labels > n {
            return self.clone();
        }
        let mut labels: Vec<Vec<u8>> = Vec::new();
        copy_labels(&mut labels, &self.labels, n - num_labels);
        proof {
            let k = n - num_labels;
            let kept = bytes_of(labels@);
            assert(kept =~= self@.subrange(k, n as int));
            assert(self@ =~= self@.take(k) + kept);
            lemma_name_len_concat(self@.take(k), kept);
            assert forall|i: int| 0 <= i < kept.len() implies 1 <= (#[trigger] kept[i]).len()
                <= 63 by {
                assert(kept[i] == self@[k + i]);
            }
        }
        Fqdn { labels }
    }

    /// The number of bytes in the labels, with one more for each of them.
    pub fn encoded_len(&self) -> (r: usize)
        ensures
            r == name_len(self@),
            r <= 255,
    {
        proof {
            use_type_invariant(self);
        }
        let ghost all = self@;
        let mut total: usize = 0;
        let mut i: usize = 0;
        assert(all.take(0) =~= Seq::empty());
        while i < self.labels.len()
            invariant
                i <= self.labels.len(),
                all == bytes_of(self.labels@),
                name_len(all) <= 255,
                total == name_len(all.take(i as int)),
                total <= 255,
            decreases self.labels.len() - i,
        {
            proof {
                assert(all.take(i + 1).drop_last() =~= all.take(i as int));
                assert(all.take(i + 1).last() == self.labels@[i as int]@);
                assert(all =~= all.take(i + 1) + all.skip(i + 1));
                lemma_name_len_concat(all.take(i + 1), all.skip(i + 1));
            }
            total += self.labels[i].len() + 1;
            i += 1;
        }
        assert(all.take(i as int) =~= all);
        total
    }

    /// Reads a name. A dot at the end may be left out.
    pub fn from_text(s: &str) -> (r: Result<Fqdn, NameError>)
        ensures
            match r {
                Ok(name) => name_from_text(s@) == Some(name@) && well_formed(name@),
                Err(e) => name_from_text(s@) is None && e == NameError::Invalid,
            },
            forall|labels: Seq<Seq<u8>>|
                plain(labels) && well_formed(labels) && (s@ == #[trigger] plain_text(labels) || s@
                    == plain_text(labels).push('.')) ==> name_from_text(s@) == Some(labels),
    {
        match parse_name(s) {
            Some(labels) => Ok(Fqdn { labels }),
            None => Err(NameError::Invalid),
        }
    }

    /// Reads a name in the strict sense. A dot at the end may be left out.
    pub fn from_host_text(s: &str) -> (r: Option<Fqdn>)
        ensures
            match r {
                Some(name) => host_from_text(s@) == Some(name@) && well_formed(name@),
                None => host_from_text(s@) is None,
            },
            forall|labels: Seq<Seq<u8>>|
                plain(labels) && well_formed(labels) && (s@ == #[trigger] plain_text(labels) || s@
                    == plain_text(labels).push('.')) ==> host_from_text(s@) == Some(labels),
    {
        match parse_host(s) {
            Ok(labels) => Some(Fqdn { labels }),
            Err(_) => None,
        }
    }

    /// Reads a name in the strict sense, and tells what is wrong where there is none. A dot at the
    /// end may be left out.
    pub fn parse_host_text(s: &str) -> (r: Result<Fqdn, HostError>)
        ensures
            match r {
                Ok(name) => host_parsed(s@) == Ok::<Seq<Seq<u8>>, Seq<char>>(name@),
                Err(e) => host_parsed(s@) == Err::<Seq<Seq<u8>>, Seq<char>>(e.message@),
            },
            forall|labels: Seq<Seq<u8>>|
                plain(labels) && well_formed(labels) && (s@ == #[trigger] plain_text(labels) || s@
                    == plain_text(labels).push('.')) ==> host_from_text(s@) == Some(labels),
    {
        match parse_host(s) {
            Ok(labels) => Ok(Fqdn { labels }),
            Err(message) => Err(HostError { message }),
        }
    }

    /// The name of a host in the domain that this name stands for.
    pub fn child(&self, host: &str) -> (r: Result<Fqdn, NameError>)
        ensures
            match host_from_text(host@) {
                Some(labels) => if name_len(labels) + name_len(self@) <= 255 {
                    r is Ok && r->Ok_0@ == labels + self@
                } else {
                    r == Err::<Fqdn, NameError>(NameError::TooLong)
                },
                None => r == Err::<Fqdn, NameError>(NameError::Invalid),
            },
            forall|labels: Seq<Seq<u8>>|
                plain(labels) && well_formed(labels) && (host@ == #[trigger] plain_text(labels)
                    || host@ == plain_text(labels).push('.')) ==> host_from_text(host@) == Some(
                    labels,
                ),
    {
        proof {
            use_type_invariant(self);
        }
        match parse_host(host) {
            Ok(mut labels) => {
                let ghost start = bytes_of(labels@);
                copy_labels(&mut labels, &self.labels, 0);
                proof {
                    assert(self@.subrange(0, self@.len() as int) =~= self@);
                    lemma_name_len_concat(start, self@);
                    let all = bytes_of(labels@);
                    assert forall|i: int| 0 <= i < all.len() implies 1 <= (
                    #[trigger] all[i]).len() <= 63 by {
                        if i < start.len() {
                            assert(all[i] == start[i]);
                        } else {
                            assert(all[i] == self@[i - start.len()]);
                        }
                    }
                }
                match Fqdn::from_labels(labels) {
                    Some(name) => Ok(name),
                    None => Err(NameError::TooLong),
                }
            },
            Err(_) => Err(NameError::Invalid),
        }
    }

    /// The written name, with a dot at its end.
    pub fn text(&self) -> (r: String)
        ensures
            r@ == name_text(self@),
            plain(self@) ==> r@ == plain_text(self@).push('.'),
    {
        proof {
            use_type_invariant(self);
        }
        format_name(&self.labels)
    }

    /// The name written in ASCII, without a dot at its end.
    pub fn ascii_text(&self) -> (r: String)
        ensures
            r@ == ascii_name_text(self@),
            plain(self@) && self@.len() > 0 ==> r@ == plain_text(self@),
    {
        proof {
            use_type_invariant(self);
        }
        format_ascii(&self.labels)
    }

    /// The address that the name stands for in a reverse lookup.
    pub fn arpa(&self) -> (r: Option<IpAddr>)
        ensures
            r == arpa_address(self@),
            forall|ip: IpAddr|
                fold(self@) == fold(#[trigger] reverse_labels(ip)) ==> r == Some(ip),
    {
        proof {
            use_type_invariant(self);
        }
        parse_arpa(&self.labels)
    }

    /// The name that a reverse lookup of an address asks for.
    pub fn reverse(ip: &IpAddr) -> (r: Fqdn)
        ensures
            r@ == reverse_labels(*ip),
    {
        let labels = match ip {
            IpAddr::V4(ip) => reverse_v4(*ip),
            IpAddr::V6(ip) => reverse_v6(*ip),
        };
        Fqdn { labels }
    }
}

impl Clone for Fqdn {
    fn clone(&self) -> (r: Self)
        ensures
            r@ == self@,
    {
        proof {
            use_type_invariant(self);
        }
        let mut labels: Vec<Vec<u8>> = Vec::new();
        copy_labels(&mut labels, &self.labels, 0);
        assert(bytes_of(labels@) =~= self@);
        Fqdn { labels }
    }
}

impl PartialEq for Fqdn {
    fn eq(&self, other: &Self) -> (r: bool) {
        self.same(other)
    }
}

impl vstd::std_specs::cmp::PartialEqSpecImpl for Fqdn {
    open spec fn obeys_eq_spec() -> bool {
        true
    }

    open spec fn eq_spec(&self, other: &Self) -> bool {
        fold(self@) == fold(other@)
    }
}

impl Eq for Fqdn {

}

} // verus!
