//! Zone files: names, record data and the text of a zone.

use vstd::prelude::*;
use crate::ip::{IpAddr, Ipv4Addr, Ipv6Addr};
use crate::text::{
    concat, decimal, decimal_text, free_of, join, join_texts, lemma_join_split, lemma_split_join,
    lemma_split_nonempty, pad_end, pad_start, padded_end, padded_start, split, split_on, texts,
    trim_end, trim_end_char,
};
use crate::time::{now, on_clock, serial_at, zone_serial, Timestamp};

verus! {

/// The labels that a written name is made of. Dots at its end are left off.
pub open spec fn labels_of(name: Seq<char>) -> Seq<Seq<char>> {
    split_on(trim_end(name, '.'), '.')
}

/// Whether labels can be those of an absolute name: there is at least one, none holds a dot, and
/// the last of several is not empty.
pub open spec fn absolute(labels: Seq<Seq<char>>) -> bool {
    &&& labels.len() >= 1
    &&& forall|i: int| 0 <= i < labels.len() ==> free_of(#[trigger] labels[i], '.')
    &&& labels.len() > 1 ==> labels.last().len() > 0
}

/// Labels with dots between them.
pub open spec fn dotted(labels: Seq<Seq<char>>) -> Seq<char> {
    join(labels, seq!['.'])
}

/// An absolute name as it is written, with a dot at its end.
pub open spec fn absolute_text(labels: Seq<Seq<char>>) -> Seq<char> {
    dotted(labels).push('.')
}

/// The number of bytes in the labels.
pub open spec fn label_bytes(labels: Seq<Seq<char>>) -> nat
    decreases labels.len(),
{
    if labels.len() == 0 {
        0
    } else {
        label_bytes(labels.drop_last()) + vstd::utf8::encode_utf8(labels.last()).len()
    }
}

/// A text keeps its last character when the character is not the one to be trimmed.
proof fn lemma_trim_keeps(s: Seq<char>, c: char)
    requires
        s.len() == 0 || s.last() != c,
    ensures
        trim_end(s.push(c), c) == s,
{
    assert(s.push(c).drop_last() =~= s);
    assert(trim_end(s, c) == s);
}

/// Dotted labels end in the last label.
proof fn lemma_dotted_end(labels: Seq<Seq<char>>)
    requires
        absolute(labels),
    ensures
        dotted(labels).len() == 0 || dotted(labels).last() != '.',
{
    let last = labels.last();
    assert(free_of(labels[labels.len() - 1], '.'));
    if labels.len() > 1 {
        let d = dotted(labels);
        assert(d.last() == last.last());
        assert(last[last.len() - 1] != '.');
    } else if last.len() > 0 {
        assert(last[last.len() - 1] != '.');
    }
}

/// Trimming leaves a text that does not end in the trimmed character.
proof fn lemma_trimmed(s: Seq<char>, c: char)
    ensures
        trim_end(s, c).len() == 0 || trim_end(s, c).last() != c,
    decreases s.len(),
{
    if s.len() > 0 && s.last() == c {
        lemma_trimmed(s.drop_last(), c);
    }
}

/// The labels of any text are those of an absolute name.
proof fn lemma_labels_absolute(name: Seq<char>)
    ensures
        absolute(labels_of(name)),
{
    let t = trim_end(name, '.');
    let p = split_on(t, '.');
    lemma_split_nonempty(t, '.');
    lemma_split_join(t, '.');
    lemma_trimmed(name, '.');
    if p.len() > 1 && p.last().len() == 0 {
        let j = join(p.drop_last(), seq!['.']) + seq!['.'];
        assert(join(p, seq!['.']) =~= j);
        assert(t.last() == '.');
    }
}

/// The written form of an absolute name reads back as the same name.
pub proof fn law_absolute_text_reads_back(labels: Seq<Seq<char>>)
    requires
        absolute(labels),
    ensures
        labels_of(absolute_text(labels)) == labels,
        labels_of(dotted(labels)) == labels,
{
    lemma_dotted_end(labels);
    lemma_trim_keeps(dotted(labels), '.');
    lemma_join_split(labels, '.');
}

/// Joining the front of the labels with the rest of them.
proof fn lemma_dotted_first(labels: Seq<Seq<char>>)
    requires
        labels.len() > 1,
    ensures
        dotted(labels) == labels[0] + seq!['.'] + dotted(labels.drop_first()),
    decreases labels.len(),
{
    let front = labels.drop_last();
    if labels.len() == 2 {
        assert(dotted(front) == front[0]);
        assert(dotted(labels.drop_first()) == labels[1]);
    } else {
        lemma_dotted_first(front);
        assert(front.drop_first() =~= labels.drop_first().drop_last());
        assert(dotted(labels) =~= labels[0] + seq!['.'] + dotted(labels.drop_first()));
    }
}

/// A fully qualified name.
#[derive(Debug)]
pub struct AbsoluteName {
    parts: Vec<String>,
}

/// A name that is relative to another.
#[derive(Debug)]
pub struct RelativeName {
    pub parts: Vec<String>,
}

impl View for AbsoluteName {
    type V = Seq<Seq<char>>;

    closed spec fn view(&self) -> Seq<Seq<char>> {
        texts(self.parts@)
    }
}

impl View for RelativeName {
    type V = Seq<Seq<char>>;

    open spec fn view(&self) -> Seq<Seq<char>> {
        texts(self.parts@)
    }
}

/// The labels of a written name.
fn split_labels(name: &str) -> (r: Vec<String>)
    ensures
        texts(r@) == labels_of(name@),
        absolute(texts(r@)),
{
    proof {
        lemma_labels_absolute(name@);
    }
    let trimmed = trim_end_char(name, '.');
    split(trimmed.as_slice(), '.')
}

/// A copy of some strings.
fn copy_strings(v: &Vec<String>, from: usize) -> (r: Vec<String>)
    requires
        from <= v.len(),
    ensures
        texts(r@) == texts(v@).subrange(from as int, v.len() as int),
{
    let mut out: Vec<String> = Vec::new();
    let mut i: usize = from;
    while i < v.len()
        invariant
            from <= i <= v.len(),
            texts(out@) == texts(v@).subrange(from as int, i as int),
        decreases v.len() - i,
    {
        let ghost before = texts(out@);
        let s = v[i].clone();
        out.push(s);
        i += 1;
        assert(texts(out@) =~= before.push(v@[i - 1]@));
        assert(texts(out@) =~= texts(v@).subrange(from as int, i as int));
    }
    out
}

/// The number of bytes in some strings.
fn count_bytes(v: &Vec<String>) -> (r: usize)
    requires
        label_bytes(texts(v@)) <= usize::MAX,
    ensures
        r == label_bytes(texts(v@)),
{
    let mut n: usize = 0;
    let mut i: usize = 0;
    assert(texts(v@).take(0) =~= Seq::empty());
    while i < v.len()
        invariant
            i <= v.len(),
            n == label_bytes(texts(v@).take(i as int)),
            label_bytes(texts(v@)) <= usize::MAX,
        decreases v.len() - i,
    {
        proof {
            lemma_label_bytes_prefix(texts(v@), i + 1);
            assert(texts(v@).take(i + 1).drop_last() =~= texts(v@).take(i as int));
        }
        n += v[i].as_str().as_bytes().len();
        i += 1;
    }
    assert(texts(v@).take(i as int) =~= texts(v@));
    n
}

/// A prefix of the labels has no more bytes than all of them.
proof fn lemma_label_bytes_prefix(labels: Seq<Seq<char>>, k: int)
    requires
        0 <= k <= labels.len(),
    ensures
        label_bytes(labels.take(k)) <= label_bytes(labels),
    decreases labels.len() - k,
{
    if k < labels.len() {
        lemma_label_bytes_prefix(labels, k + 1);
        assert(labels.take(k + 1).drop_last() =~= labels.take(k));
    } else {
        assert(labels.take(k) =~= labels);
    }
}

impl AbsoluteName {
    #[verifier::type_invariant]
    closed spec fn inv(self) -> bool {
        absolute(texts(self.parts@))
    }

    /// The name with the labels of a text.
    pub fn new(name: &str) -> (r: AbsoluteName)
        ensures
            r@ == labels_of(name@),
            absolute(r@),
    {
        AbsoluteName { parts: split_labels(name) }
    }

    /// The number of bytes in the written name, its last dot included.
    pub fn len(&self) -> (r: usize)
        requires
            label_bytes(self@) + self@.len() <= usize::MAX,
        ensures
            r == label_bytes(self@) + self@.len(),
            r == vstd::utf8::encode_utf8(absolute_text(self@)).len(),
            r == vstd::utf8::encode_utf8(dotted(self@)).len() + 1,
    {
        proof {
            use_type_invariant(self);
            law_len_counts_bytes(self@);
        }
        count_bytes(&self.parts) + self.parts.len()
    }

    /// The name below this one that is given by a relative name.
    pub fn prepend(&self, name: RelativeName) -> (r: AbsoluteName)
        ensures
            r@ == labels_of(dotted(name@) + seq!['.'] + absolute_text(self@)),
            absolute(r@),
    {
        let mut s = name.text();
        s.push('.');
        let t = self.text();
        s.append(t.as_str());
        assert(s@ =~= dotted(name@) + seq!['.'] + absolute_text(self@));
        AbsoluteName::new(s.as_str())
    }

    /// The first label and the name that it stands below. A name of one label has none.
    pub fn split(&self) -> (r: Option<(RelativeName, AbsoluteName)>)
        ensures
            r is None <==> self@.len() <= 1,
            r matches Some((first, rest)) ==> first@ == seq![self@[0]] && rest@ == self@.drop_first()
                && absolute(rest@),
    {
        proof {
            use_type_invariant(self);
        }
        if self.parts.len() <= 1 {
            None
        } else {
            let first = RelativeName::new(self.parts[0].as_str());
            let parts = copy_strings(&self.parts, 1);
            proof {
                let label = self@[0];
                assert(free_of(label, '.'));
                if label.len() > 0 {
                    assert(label[label.len() - 1] != '.');
                }
                assert(trim_end(label, '.') == label);
                lemma_join_split(seq![label], '.');
                assert(texts(parts@) =~= self@.drop_first());
                assert forall|i: int| 0 <= i < texts(parts@).len() implies free_of(
                    #[trigger] texts(parts@)[i],
                    '.',
                ) by {
                    assert(texts(parts@)[i] == self@[i + 1]);
                }
            }
            Some((first, AbsoluteName { parts }))
        }
    }

    /// The labels with dots between them, without one at the end.
    pub fn non_absolute(&self) -> (r: String)
        ensures
            r@ == dotted(self@),
    {
        proof {
            reveal_strlit(".");
            assert("."@ =~= seq!['.']);
        }
        join_texts(&self.parts, ".")
    }

    /// The written name, with a dot at its end.
    pub fn text(&self) -> (r: String)
        ensures
            r@ == absolute_text(self@),
    {
        let mut s = self.non_absolute();
        s.push('.');
        s
    }
}

impl Clone for AbsoluteName {
    fn clone(&self) -> (r: Self)
        ensures
            r@ == self@,
    {
        proof {
            use_type_invariant(self);
        }
        let parts = copy_strings(&self.parts, 0);
        assert(texts(parts@) =~= self@);
        AbsoluteName { parts }
    }
}

impl RelativeName {
    /// The name with the labels of a text.
    pub fn new(name: &str) -> (r: RelativeName)
        ensures
            r@ == labels_of(name@),
            absolute(r@),
    {
        RelativeName { parts: split_labels(name) }
    }

    /// The number of bytes in the written name.
    pub fn len(&self) -> (r: usize)
        requires
            self@.len() > 0,
            label_bytes(self@) + self@.len() <= usize::MAX,
        ensures
            r == label_bytes(self@) + self@.len() - 1,
            r == vstd::utf8::encode_utf8(dotted(self@)).len(),
    {
        proof {
            law_len_counts_bytes(self@);
        }
        count_bytes(&self.parts) + self.parts.len() - 1
    }

    /// The written name.
    pub fn text(&self) -> (r: String)
        ensures
            r@ == dotted(self@),
    {
        proof {
            reveal_strlit(".");
            assert("."@ =~= seq!['.']);
        }
        join_texts(&self.parts, ".")
    }
}

impl Clone for RelativeName {
    fn clone(&self) -> (r: Self)
        ensures
            r@ == self@,
    {
        let parts = copy_strings(&self.parts, 0);
        assert(texts(parts@) =~= self@);
        RelativeName { parts }
    }
}

/// Prepending the first label of a name to the name that it stands below gives the name back.
pub proof fn law_split_then_prepend(labels: Seq<Seq<char>>)
    requires
        absolute(labels),
        labels.len() > 1,
    ensures
        labels_of(
            dotted(seq![labels[0]]) + seq!['.'] + absolute_text(labels.drop_first()),
        ) == labels,
{
    lemma_dotted_first(labels);
    assert(dotted(seq![labels[0]]) + seq!['.'] + absolute_text(labels.drop_first())
        =~= absolute_text(labels));
    law_absolute_text_reads_back(labels);
}

/// The bytes of two texts one after the other are those of the whole.
proof fn lemma_encode_concat(a: Seq<char>, b: Seq<char>)
    ensures
        vstd::utf8::encode_utf8(a + b) == vstd::utf8::encode_utf8(a) + vstd::utf8::encode_utf8(b),
    decreases a.len(),
{
    if a.len() == 0 {
        assert(a + b =~= b);
    } else {
        lemma_encode_concat(a.drop_first(), b);
        assert((a + b).drop_first() =~= a.drop_first() + b);
        assert(vstd::utf8::encode_utf8(a + b) =~= vstd::utf8::encode_utf8(a)
            + vstd::utf8::encode_utf8(b));
    }
}

/// The bytes of dotted labels.
proof fn lemma_dotted_bytes(labels: Seq<Seq<char>>)
    requires
        labels.len() >= 1,
    ensures
        vstd::utf8::encode_utf8(dotted(labels)).len() == label_bytes(labels) + labels.len() - 1,
    decreases labels.len(),
{
    let front = labels.drop_last();
    if labels.len() == 1 {
        assert(label_bytes(front) == 0);
    } else {
        lemma_dotted_bytes(front);
        lemma_encode_concat(dotted(front) + seq!['.'], labels.last());
        lemma_encode_concat(dotted(front), seq!['.']);
        lemma_dot_bytes();
    }
}

/// A dot is one byte.
proof fn lemma_dot_bytes()
    ensures
        vstd::utf8::encode_utf8(seq!['.']).len() == 1,
{
    assert(seq!['.'].drop_first() =~= Seq::<char>::empty());
    reveal_with_fuel(vstd::utf8::encode_utf8, 2);
}

/// The length of an absolute name is the number of bytes in its written form, and the length of a
/// relative one likewise.
pub proof fn law_len_counts_bytes(labels: Seq<Seq<char>>)
    requires
        labels.len() >= 1,
    ensures
        vstd::utf8::encode_utf8(absolute_text(labels)).len() == label_bytes(labels) + labels.len(),
        vstd::utf8::encode_utf8(dotted(labels)).len() == label_bytes(labels) + labels.len() - 1,
{
    lemma_dotted_bytes(labels);
    lemma_encode_concat(dotted(labels), seq!['.']);
    lemma_dot_bytes();
    assert(dotted(labels) + seq!['.'] =~= absolute_text(labels));
}

/// Labels before others, with dots between all of them.
proof fn lemma_dotted_concat(a: Seq<Seq<char>>, b: Seq<Seq<char>>)
    requires
        a.len() > 0,
        b.len() > 0,
    ensures
        dotted(a + b) == dotted(a) + seq!['.'] + dotted(b),
    decreases b.len(),
{
    assert((a + b).drop_last() =~= a + b.drop_last());
    if b.len() == 1 {
        assert(a + b.drop_last() =~= a);
    } else {
        lemma_dotted_concat(a, b.drop_last());
        assert(dotted(a + b) =~= dotted(a) + seq!['.'] + dotted(b));
    }
}

/// The bytes of labels before others.
proof fn lemma_label_bytes_concat(a: Seq<Seq<char>>, b: Seq<Seq<char>>)
    ensures
        label_bytes(a + b) == label_bytes(a) + label_bytes(b),
    decreases b.len(),
{
    if b.len() == 0 {
        assert(a + b =~= a);
    } else {
        assert((a + b).drop_last() =~= a + b.drop_last());
        lemma_label_bytes_concat(a, b.drop_last());
    }
}

/// Prepending a name to one other than the root puts its labels before those of the other: the text
/// is that of both with a dot between them, and the length is that of both and one more.
pub proof fn law_prepended_names(name: Seq<Seq<char>>, labels: Seq<Seq<char>>)
    requires
        absolute(name),
        absolute(labels),
        absolute_text(labels) != seq!['.'],
    ensures
        ({
            let all = labels_of(dotted(name) + seq!['.'] + absolute_text(labels));
            &&& all == name + labels
            &&& absolute_text(all) == dotted(name) + seq!['.'] + absolute_text(labels)
            &&& label_bytes(all) + all.len() == (label_bytes(name) + name.len() - 1) + 1 + (
            label_bytes(labels) + labels.len())
        }),
{
    let all = name + labels;
    if labels.len() == 1 && labels[0].len() == 0 {
        assert(absolute_text(labels) =~= seq!['.']);
    }
    assert(all.last() == labels.last());
    assert forall|i: int| 0 <= i < all.len() implies free_of(#[trigger] all[i], '.') by {
        if i < name.len() {
            assert(all[i] == name[i]);
        } else {
            assert(all[i] == labels[i - name.len()]);
        }
    }
    lemma_dotted_concat(name, labels);
    lemma_label_bytes_concat(name, labels);
    assert(absolute_text(all) =~= dotted(name) + seq!['.'] + absolute_text(labels));
    law_absolute_text_reads_back(all);
}

/// A name or an address that a name server is reached by.
#[derive(Debug)]
pub enum Address {
    Name(AbsoluteName),
    V4(Ipv4Addr),
    V6(Ipv6Addr),
}

/// An address as it is written.
pub open spec fn address_text(address: Address) -> Seq<char> {
    match address {
        Address::Name(name) => dotted(name@),
        Address::V4(ip) => crate::ip::ipv4_text(ip),
        Address::V6(ip) => crate::ip::ipv6_text(ip.bits),
    }
}

impl Address {
    /// The address for an IP address.
    pub fn from_ip(ip: &IpAddr) -> (r: Address)
        ensures
            match *ip {
                IpAddr::V4(v4) => r == Address::V4(v4),
                IpAddr::V6(v6) => r == Address::V6(v6),
            },
    {
        match ip {
            IpAddr::V4(ip) => Address::V4(*ip),
            IpAddr::V6(ip) => Address::V6(*ip),
        }
    }

    /// Reads an address: an IP address where the text is one, a name otherwise.
    pub fn from_text(name: &str) -> (r: Address)
        ensures
            match crate::ip::ip_from_text(name@) {
                Some(IpAddr::V4(ip)) => r == Address::V4(ip),
                Some(IpAddr::V6(ip)) => r == Address::V6(ip),
                None => r matches Address::Name(n) && n@ == labels_of(name@),
            },
    {
        match IpAddr::from_text(name) {
            Some(ip) => Address::from_ip(&ip),
            None => Address::Name(AbsoluteName::new(name)),
        }
    }

    /// The written address.
    pub fn text(&self) -> (r: String)
        ensures
            r@ == address_text(*self),
    {
        match self {
            Address::Name(name) => name.non_absolute(),
            Address::V4(ip) => ip.text(),
            Address::V6(ip) => ip.text(),
        }
    }
}

impl Clone for Address {
    fn clone(&self) -> (r: Self)
        ensures
            address_text(r) == address_text(*self),
            match *self {
                Address::Name(n) => r matches Address::Name(m) && m@ == n@,
                Address::V4(ip) => r == Address::V4(ip),
                Address::V6(ip) => r == Address::V6(ip),
            },
    {
        match self {
            Address::Name(name) => Address::Name(name.clone()),
            Address::V4(ip) => Address::V4(*ip),
            Address::V6(ip) => Address::V6(*ip),
        }
    }
}

/// The class of a record.
#[derive(Clone, Copy, PartialEq, Eq, Debug, Hash, Structural)]
pub enum Class {
    In,
}

impl Class {
    /// The written class.
    pub fn text(&self) -> (r: String)
        ensures
            r@ == "IN"@,
    {
        "IN".to_owned()
    }
}

/// The data of a record.
#[derive(Debug)]
pub enum RecordData {
    A(Ipv4Addr),
    Aaaa(Ipv6Addr),
    Cname(AbsoluteName),
    Ns(Address),
}

/// Record data as it is written: its type in a column of eight characters, then its value.
pub open spec fn data_text(data: RecordData) -> Seq<char> {
    match data {
        RecordData::A(ip) => "A       "@ + crate::ip::ipv4_text(ip),
        RecordData::Aaaa(ip) => "AAAA    "@ + crate::ip::ipv6_text(ip.bits),
        RecordData::Cname(name) => "CNAME   "@ + absolute_text(name@),
        RecordData::Ns(address) => "NS      "@ + address_text(address),
    }
}

impl RecordData {
    /// The written data.
    pub fn write(&self) -> (r: String)
        ensures
            r@ == data_text(*self),
    {
        match self {
            RecordData::A(ip) => concat("A       ", ip.text().as_str()),
            RecordData::Aaaa(ip) => concat("AAAA    ", ip.text().as_str()),
            RecordData::Cname(name) => concat("CNAME   ", name.text().as_str()),
            RecordData::Ns(name) => concat("NS      ", name.text().as_str()),
        }
    }

    /// The data for an IP address.
    pub fn from_ip(ip: &IpAddr) -> (r: RecordData)
        ensures
            match *ip {
                IpAddr::V4(v4) => r == RecordData::A(v4),
                IpAddr::V6(v6) => r == RecordData::Aaaa(v6),
            },
    {
        match ip {
            IpAddr::V4(ip) => RecordData::A(*ip),
            IpAddr::V6(ip) => RecordData::Aaaa(*ip),
        }
    }

    /// Reads data: an IP address where the text is one, an alias otherwise.
    pub fn from_text(name: &str) -> (r: RecordData)
        ensures
            match crate::ip::ip_from_text(name@) {
                Some(IpAddr::V4(ip)) => r == RecordData::A(ip),
                Some(IpAddr::V6(ip)) => r == RecordData::Aaaa(ip),
                None => r matches RecordData::Cname(n) && n@ == labels_of(name@),
            },
    {
        match IpAddr::from_text(name) {
            Some(ip) => RecordData::from_ip(&ip),
            None => RecordData::Cname(AbsoluteName::new(name)),
        }
    }
}

impl Clone for RecordData {
    fn clone(&self) -> (r: Self)
        ensures
            data_text(r) == data_text(*self),
            match *self {
                RecordData::A(ip) => r == RecordData::A(ip),
                RecordData::Aaaa(ip) => r == RecordData::Aaaa(ip),
                RecordData::Cname(n) => r matches RecordData::Cname(m) && m@ == n@,
                RecordData::Ns(Address::Name(n)) => r matches RecordData::Ns(Address::Name(m))
                    && m@ == n@,
                RecordData::Ns(address) => r == RecordData::Ns(address),
            },
    {
        match self {
            RecordData::A(ip) => RecordData::A(*ip),
            RecordData::Aaaa(ip) => RecordData::Aaaa(*ip),
            RecordData::Cname(name) => RecordData::Cname(name.clone()),
            RecordData::Ns(address) => RecordData::Ns(address.clone()),
        }
    }
}

/// A record of a zone. One without a name stands for the zone itself.
#[derive(Debug)]
pub struct ResourceRecord {
    pub name: Option<RelativeName>,
    pub class: Class,
    pub ttl: u32,
    pub data: RecordData,
}

/// The name of a record as it is written.
pub open spec fn owner_text(record: ResourceRecord) -> Seq<char> {
    match record.name {
        Some(name) => dotted(name@),
        None => Seq::empty(),
    }
}

/// The line of a record: its name up to a width, then its lifetime, its class and its data.
pub open spec fn record_line(record: ResourceRecord, width: nat) -> Seq<char> {
    padded_end(owner_text(record), width) + "  "@ + padded_start(decimal(record.ttl as nat), 4)
        + " "@ + padded_end("IN"@, 4) + " "@ + data_text(record.data) + seq!['\n']
}

/// The length of the longest name among records.
pub open spec fn longest_name(records: Seq<ResourceRecord>) -> nat
    decreases records.len(),
{
    if records.len() == 0 {
        0
    } else {
        let longest = longest_name(records.drop_last());
        match records.last().name {
            Some(name) => {
                let n = (label_bytes(name@) + name@.len() - 1) as nat;
                if n > longest {
                    n
                } else {
                    longest
                }
            },
            None => longest,
        }
    }
}

/// The lines of records.
pub open spec fn record_lines(records: Seq<ResourceRecord>, width: nat) -> Seq<char>
    decreases records.len(),
{
    if records.len() == 0 {
        Seq::empty()
    } else {
        record_lines(records.drop_last(), width) + record_line(records.last(), width)
    }
}

/// Whether the names of records have labels, and few enough to be measured.
pub open spec fn names_measurable(records: Seq<ResourceRecord>) -> bool {
    forall|i: int|
        0 <= i < records.len() ==> ((#[trigger] records[i]).name matches Some(name) ==> name@.len()
            > 0 && label_bytes(name@) + name@.len() <= usize::MAX)
}

/// A zone, with the records below its domain.
#[derive(Debug)]
pub struct Zone {
    pub domain: AbsoluteName,
    hostmaster: String,
    refresh_time: u32,
    retry_time: u32,
    expire_time: u32,
    min_ttl: u32,
    upstream: Option<String>,
    records: Vec<ResourceRecord>,
}

/// The start of a zone file: the origin and the start of authority.
pub open spec fn zone_head(
    domain: Seq<Seq<char>>,
    hostmaster: Seq<char>,
    serial: u32,
    times: (u32, u32, u32, u32),
) -> Seq<char> {
    "$ORIGIN "@ + absolute_text(domain) + "\n@ 300 SOA ns."@ + absolute_text(domain) + " ("@
        + hostmaster + " "@ + decimal(serial as nat) + " "@ + decimal(times.0 as nat) + " "@
        + decimal(times.1 as nat) + " "@ + decimal(times.2 as nat) + " "@ + decimal(times.3 as nat)
        + ")\n"@
}

impl Zone {
    /// The labels of the zone's domain.
    pub closed spec fn origin(self) -> Seq<Seq<char>> {
        self.domain@
    }

    /// The mailbox of the zone's keeper.
    pub closed spec fn hostmaster(self) -> Seq<char> {
        self.hostmaster@
    }

    /// The refresh, retry, expire and minimum times.
    pub closed spec fn times(self) -> (u32, u32, u32, u32) {
        (self.refresh_time, self.retry_time, self.expire_time, self.min_ttl)
    }

    /// The server configuration of what the zone falls through to.
    pub closed spec fn upstream(self) -> Option<Seq<char>> {
        match self.upstream {
            Some(s) => Some(s@),
            None => None,
        }
    }

    /// The records of the zone.
    pub closed spec fn records(self) -> Seq<ResourceRecord> {
        self.records@
    }

    /// The server configuration of the zone.
    pub open spec fn core_text(self, zone_file: Seq<char>) -> Seq<char> {
        dotted(self.origin()) + " {\n"@ + match self.upstream() {
            Some(upstream) => "  file "@ + zone_file + " {\n    fallthrough\n  }\n\n"@ + upstream,
            None => "  file "@ + absolute_text(self.origin()) + "zone\n"@,
        } + "}\n"@
    }

    /// The zone file with a serial number.
    pub open spec fn zone_text(self, serial: u32) -> Seq<char> {
        zone_head(self.origin(), self.hostmaster(), serial, self.times()) + record_lines(
            self.records(),
            longest_name(self.records()),
        )
    }

    /// A zone with the address of its name server.
    pub fn new(domain: AbsoluteName, local_ip: &IpAddr, upstream: Option<String>) -> (r: Zone)
        ensures
            r.origin() == domain@,
            r.hostmaster() == "hostmaster."@ + absolute_text(domain@),
            r.times() == (300u32, 300u32, 300u32, 300u32),
            r.upstream() == match upstream {
                Some(s) => Some(s@),
                None => None,
            },
            r.records().len() == 1,
            r.records()[0].name matches Some(n) && n@ == labels_of("ns"@),
            r.records()[0].ttl == 300,
            match *local_ip {
                IpAddr::V4(v4) => r.records()[0].data == RecordData::A(v4),
                IpAddr::V6(v6) => r.records()[0].data == RecordData::Aaaa(v6),
            },
    {
        let hostmaster = concat("hostmaster.", domain.text().as_str());
        let record = ResourceRecord {
            name: Some(RelativeName::new("ns")),
            class: Class::In,
            ttl: 300,
            data: RecordData::from_ip(local_ip),
        };
        Zone {
            hostmaster,
            domain,
            refresh_time: 300,
            retry_time: 300,
            expire_time: 300,
            min_ttl: 300,
            upstream,
            records: vec![record],
        }
    }

    /// Adds a record after those that the zone has.
    pub fn add_record(&mut self, record: ResourceRecord)
        ensures
            final(self).records() == old(self).records().push(record),
            final(self).origin() == old(self).origin(),
            final(self).hostmaster() == old(self).hostmaster(),
            final(self).times() == old(self).times(),
            final(self).upstream() == old(self).upstream(),
    {
        self.records.push(record);
    }

    /// Writes the server configuration of the zone.
    pub fn write_core(&self, zone_file: &str) -> (r: String)
        ensures
            r@ == self.core_text(zone_file@),
    {
        let mut buf = self.domain.non_absolute();
        buf.append(" {\n");
        match &self.upstream {
            Some(upstream) => {
                let mut part = concat("  file ", zone_file);
                part.append(" {\n    fallthrough\n  }\n\n");
                part.append(upstream.as_str());
                buf.append(part.as_str());
            },
            None => {
                let mut part = concat("  file ", self.domain.text().as_str());
                part.append("zone\n");
                buf.append(part.as_str());
            },
        }
        buf.append("}\n");
        buf
    }

    /// The length of the longest name among the records.
    fn longest(&self) -> (r: usize)
        requires
            names_measurable(self.records()),
        ensures
            r == longest_name(self.records()),
    {
        let mut longest: usize = 0;
        let mut i: usize = 0;
        assert(self.records@.take(0) =~= Seq::empty());
        while i < self.records.len()
            invariant
                i <= self.records.len(),
                names_measurable(self.records@),
                longest == longest_name(self.records@.take(i as int)),
            decreases self.records.len() - i,
        {
            assert(self.records@.take(i + 1).drop_last() =~= self.records@.take(i as int));
            let ghost record = self.records@[i as int];
            if let Some(name) = &self.records[i].name {
                let n: usize = name.len();
                if n > longest {
                    longest = n;
                }
            }
            i += 1;
        }
        assert(self.records@.take(i as int) =~= self.records@);
        longest
    }

    /// Writes the zone file with a serial number.
    pub fn write_zone_at(&self, serial: u32) -> (r: String)
        requires
            names_measurable(self.records()),
        ensures
            r@ == self.zone_text(serial),
    {
        let domain = self.domain.text();
        let mut buf = concat("$ORIGIN ", domain.as_str());
        buf.append("\n@ 300 SOA ns.");
        buf.append(domain.as_str());
        buf.append(" (");
        buf.append(self.hostmaster.as_str());
        buf.append(" ");
        buf.append(decimal_text(serial as u64).as_str());
        buf.append(" ");
        buf.append(decimal_text(self.refresh_time as u64).as_str());
        buf.append(" ");
        buf.append(decimal_text(self.retry_time as u64).as_str());
        buf.append(" ");
        buf.append(decimal_text(self.expire_time as u64).as_str());
        buf.append(" ");
        buf.append(decimal_text(self.min_ttl as u64).as_str());
        buf.append(")\n");
        let ghost head = zone_head(self.domain@, self.hostmaster(), serial, self.times());
        let longest: usize = self.longest();
        let ghost width = longest as nat;
        let mut i: usize = 0;
        assert(self.records@.take(0) =~= Seq::empty());
        while i < self.records.len()
            invariant
                i <= self.records.len(),
                width == longest,
                buf@ == head + record_lines(self.records@.take(i as int), width),
            decreases self.records.len() - i,
        {
            assert(self.records@.take(i + 1).drop_last() =~= self.records@.take(i as int));
            let line = self.records[i].line(longest);
            buf.append(line.as_str());
            i += 1;
            assert(buf@ =~= head + record_lines(self.records@.take(i as int), width));
        }
        assert(self.records@.take(i as int) =~= self.records@);
        buf
    }

    /// Writes the zone file, with the present time for its serial number.
    pub fn write_zone(&self) -> (r: String)
        requires
            names_measurable(self.records()),
        ensures
            exists|t: Timestamp|
                r@ == self.zone_text(#[trigger] serial_at(t)) && on_clock(t),
    {
        let time = now();
        self.write_zone_at(zone_serial(time))
    }
}

impl ResourceRecord {
    /// The line of the record, with a width for its name.
    fn line(&self, width: usize) -> (r: String)
        ensures
            r@ == record_line(*self, width as nat),
    {
        let owner = match &self.name {
            Some(name) => name.text(),
            None => String::new(),
        };
        let mut s = pad_end(owner.as_str(), width);
        s.append("  ");
        s.append(pad_start(decimal_text(self.ttl as u64).as_str(), 4).as_str());
        s.append(" ");
        s.append(pad_end(self.class.text().as_str(), 4).as_str());
        s.append(" ");
        s.append(self.data.write().as_str());
        s.push('\n');
        assert(s@ =~= record_line(*self, width as nat));
        s
    }
}

/// A record under an absolute name. One without a lifetime takes that of its zone.
#[derive(Debug)]
pub struct Record {
    pub name: AbsoluteName,
    pub ttl: Option<u32>,
    pub data: RecordData,
}

/// The lines of a zone file are those of all its records, one for each, in their order.
pub proof fn law_every_record_has_its_line(records: Seq<ResourceRecord>, width: nat)
    ensures
        record_lines(records, width) == records.map_values(
            |record: ResourceRecord| record_line(record, width),
        ).flatten(),
    decreases records.len(),
{
    let line = |record: ResourceRecord| record_line(record, width);
    if records.len() > 0 {
        let front = records.drop_last();
        law_every_record_has_its_line(front, width);
        let before = front.map_values(line);
        assert(records.map_values(line) =~= before.push(line(records.last())));
        before.lemma_flatten_push(line(records.last()));
    } else {
        assert(record_lines(records, width) =~= records.map_values(line).flatten());
    }
}

/// The column of names is as wide as the longest of them: none is longer, and one is as long, unless
/// there is none.
pub proof fn law_names_fit_their_column(records: Seq<ResourceRecord>)
    requires
        names_measurable(records),
    ensures
        forall|i: int|
            0 <= i < records.len() && (#[trigger] records[i]).name is Some ==> label_bytes(
                records[i].name->0@,
            ) + records[i].name->0@.len() - 1 <= longest_name(records),
        longest_name(records) > 0 ==> exists|i: int|
            0 <= i < records.len() && (#[trigger] records[i]).name is Some && label_bytes(
                records[i].name->0@,
            ) + records[i].name->0@.len() - 1 == longest_name(records),
    decreases records.len(),
{
    if records.len() > 0 {
        let front = records.drop_last();
        assert forall|i: int| 0 <= i < front.len() implies #[trigger] front[i] == records[i] by {}
        assert forall|i: int| 0 <= i < front.len() implies #[trigger] records[i] == front[i] by {}
        assert(names_measurable(front));
        law_names_fit_their_column(front);
        assert(records[records.len() - 1] == records.last());
        if longest_name(records) == longest_name(front) && longest_name(front) > 0 {
            let i = choose|i: int|
                0 <= i < front.len() && (#[trigger] front[i]).name is Some && label_bytes(
                    front[i].name->0@,
                ) + front[i].name->0@.len() - 1 == longest_name(front);
            assert(records[i] == front[i]);
        }
    }
}

} // verus!
