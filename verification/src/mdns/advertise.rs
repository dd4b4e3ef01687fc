//! Advertising Proxy dataset rewriting: registered names move between the registration zone
//! and a per-dataset multicast namespace.
use crate::dns::name::{labels_view, lower_label, valid_labels, Name};
use crate::dns::wire::{copy_labels, copy_options, Rdata, RdataV, Record, RecordV};
use crate::error::Error;
use crate::ipv4::{is_link_local4, spec_unicast, unicast};
use vstd::prelude::*;

verus! {

/// `name` ends with the labels of `zone`, compared without ASCII case.
pub open spec fn spec_within(name: Seq<Seq<u8>>, zone: Seq<Seq<u8>>) -> bool {
    &&& name.len() >= zone.len()
    &&& forall|i: int| 0 <= i < zone.len() ==> #[trigger] lower_label(name[name.len() - zone.len() + i]) == lower_label(zone[i])
}

/// Replaces the suffix `from` of `name` with `to`; names outside `from` stay as they are.
pub open spec fn spec_replace_suffix(name: Seq<Seq<u8>>, from: Seq<Seq<u8>>, to: Seq<Seq<u8>>) -> Option<Seq<Seq<u8>>> {
    if !spec_within(name, from) {
        Some(name)
    } else {
        let ls = name.take(name.len() - from.len()) + to;
        if valid_labels(ls) {
            Some(ls)
        } else {
            None
        }
    }
}

pub fn label_eq_ci(a: &[u8], b: &[u8]) -> (r: bool)
    ensures
        r == (lower_label(a@) == lower_label(b@)),
{
    if a.len() != b.len() {
        assert(lower_label(a@).len() != lower_label(b@).len());
        return false;
    }
    let mut i: usize = 0;
    while i < a.len()
        invariant
            a@.len() == b@.len(),
            i <= a@.len(),
            forall|j: int| 0 <= j < i ==> #[trigger] lower_label(a@)[j] == lower_label(b@)[j],
        decreases a@.len() - i,
    {
        let x = if a[i] >= 65 && a[i] <= 90 { a[i] + 32 } else { a[i] };
        let y = if b[i] >= 65 && b[i] <= 90 { b[i] + 32 } else { b[i] };
        if x != y {
            assert(lower_label(a@)[i as int] != lower_label(b@)[i as int]);
            return false;
        }
        i = i + 1;
    }
    assert(lower_label(a@) =~= lower_label(b@));
    true
}

/// Whether `name` lies within `zone`.
pub fn within(name: &Name, zone: &Name) -> (r: bool)
    ensures
        r == spec_within(name@, zone@),
{
    let a = name.labels();
    let b = zone.labels();
    if a.len() < b.len() {
        return false;
    }
    let al = a.len();
    let off = al - b.len();
    let mut i: usize = 0;
    while i < b.len()
        invariant
            labels_view(a@) == name@,
            labels_view(b@) == zone@,
            off == a@.len() - b@.len(),
            off + b@.len() == al,
            al == a@.len(),
            i <= b@.len(),
            forall|j: int| 0 <= j < i ==> #[trigger] lower_label(name@[name@.len() - zone@.len() + j]) == lower_label(zone@[j]),
        decreases b@.len() - i,
    {
        assert(name@[off + i] == a@[off + i]@);
        assert(zone@[i as int] == b@[i as int]@);
        if !label_eq_ci(a[off + i].as_slice(), b[i].as_slice()) {
            return false;
        }
        i = i + 1;
    }
    true
}

/// Moves `name` from under `from` to under `to`.
pub fn replace_suffix(name: &Name, from: &Name, to: &Name) -> (r: Result<Name, Error>)
    ensures
        match spec_replace_suffix(name@, from@, to@) {
            None => r is Err,
            Some(ls) => r matches Ok(n) && n@ == ls,
        },
{
    if !within(name, from) {
        return Ok(name.clone());
    }
    let a = name.labels();
    let keep = a.len() - from.label_count();
    let mut labels: Vec<Vec<u8>> = Vec::new();
    let mut i: usize = 0;
    while i < keep
        invariant
            i <= keep <= a@.len(),
            labels_view(a@) == name@,
            labels_view(labels@) == name@.take(i as int),
        decreases keep - i,
    {
        let c = vstd::slice::slice_to_vec(a[i].as_slice());
        let ghost before = labels@;
        labels.push(c);
        assert(labels_view(labels@) =~= labels_view(before).push(c@));
        i = i + 1;
        assert(labels_view(labels@) =~= name@.take(i as int));
    }
    let t = to.labels();
    let mut j: usize = 0;
    while j < t.len()
        invariant
            j <= t@.len(),
            labels_view(t@) == to@,
            labels_view(labels@) == name@.take(keep as int) + to@.take(j as int),
        decreases t@.len() - j,
    {
        let c = vstd::slice::slice_to_vec(t[j].as_slice());
        let ghost before = labels@;
        labels.push(c);
        assert(labels_view(labels@) =~= labels_view(before).push(c@));
        j = j + 1;
        assert(labels_view(labels@) =~= name@.take(keep as int) + to@.take(j as int));
    }
    assert(to@.take(j as int) =~= to@);
    Name::from_labels(labels)
}

pub open spec fn map_name(n: Seq<Seq<u8>>, from: Seq<Seq<u8>>, to: Seq<Seq<u8>>) -> Option<Seq<Seq<u8>>> {
    spec_replace_suffix(n, from, to)
}

/// Every name inside RDATA moved from `from` to `to`; opaque RDATA cannot be rewritten.
pub open spec fn spec_rewrite_data(d: RdataV, f: Seq<Seq<u8>>, t: Seq<Seq<u8>>) -> Option<RdataV> {
    match d {
        RdataV::Name(n) => match map_name(n, f, t) {
            Some(m) => Some(RdataV::Name(m)),
            None => None,
        },
        RdataV::Srv { priority, weight, port, target } => match map_name(target, f, t) {
            Some(m) => Some(RdataV::Srv { priority, weight, port, target: m }),
            None => None,
        },
        RdataV::Preference { preference, name } => match map_name(name, f, t) {
            Some(m) => Some(RdataV::Preference { preference, name: m }),
            None => None,
        },
        RdataV::Nsec { next, bitmap } => match map_name(next, f, t) {
            Some(m) => Some(RdataV::Nsec { next: m, bitmap }),
            None => None,
        },
        RdataV::Svcb { priority, target, params } => match map_name(target, f, t) {
            Some(m) => Some(RdataV::Svcb { priority, target: m, params }),
            None => None,
        },
        RdataV::TwoNames { first, second } => match (map_name(first, f, t), map_name(second, f, t)) {
            (Some(a), Some(b)) => Some(RdataV::TwoNames { first: a, second: b }),
            _ => None,
        },
        RdataV::Px { preference, map822, mapx400 } => match (map_name(map822, f, t), map_name(mapx400, f, t)) {
            (Some(a), Some(b)) => Some(RdataV::Px { preference, map822: a, mapx400: b }),
            _ => None,
        },
        RdataV::Soa { mname, rname, serial, refresh, retry, expire, minimum } => match (
            map_name(mname, f, t),
            map_name(rname, f, t),
        ) {
            (Some(a), Some(b)) => Some(RdataV::Soa { mname: a, rname: b, serial, refresh, retry, expire, minimum }),
            _ => None,
        },
        RdataV::Sig { covered, algorithm, labels, original_ttl, expiration, inception, key_tag, signer, signature } => match map_name(
            signer,
            f,
            t,
        ) {
            Some(m) => Some(
                RdataV::Sig { covered, algorithm, labels, original_ttl, expiration, inception, key_tag, signer: m, signature },
            ),
            None => None,
        },
        RdataV::Opaque(_) => None,
        _ => Some(d),
    }
}

/// Moves every name inside RDATA from `from` to `to`; on failure the data is unchanged.
pub fn rewrite_data(data: &mut Rdata, from: &Name, to: &Name) -> (r: Result<(), Error>)
    ensures
        match spec_rewrite_data(old(data)@, from@, to@) {
            None => r is Err && final(data)@ == old(data)@,
            Some(d) => r is Ok && final(data)@ == d,
        },
{
    let new = match &*data {
        Rdata::Name(n) => Rdata::Name(replace_suffix(n, from, to)?),
        Rdata::Srv { priority, weight, port, target } => Rdata::Srv {
            priority: *priority,
            weight: *weight,
            port: *port,
            target: replace_suffix(target, from, to)?,
        },
        Rdata::Preference { preference, name } => Rdata::Preference {
            preference: *preference,
            name: replace_suffix(name, from, to)?,
        },
        Rdata::Nsec { next, bitmap } => Rdata::Nsec {
            next: replace_suffix(next, from, to)?,
            bitmap: vstd::slice::slice_to_vec(bitmap.as_slice()),
        },
        Rdata::Svcb { priority, target, params } => Rdata::Svcb {
            priority: *priority,
            target: replace_suffix(target, from, to)?,
            params: copy_options(params),
        },
        Rdata::TwoNames { first, second } => {
            let a = replace_suffix(first, from, to)?;
            let b = replace_suffix(second, from, to)?;
            Rdata::TwoNames { first: a, second: b }
        },
        Rdata::Px { preference, map822, mapx400 } => {
            let a = replace_suffix(map822, from, to)?;
            let b = replace_suffix(mapx400, from, to)?;
            Rdata::Px { preference: *preference, map822: a, mapx400: b }
        },
        Rdata::Soa { mname, rname, serial, refresh, retry, expire, minimum } => {
            let a = replace_suffix(mname, from, to)?;
            let b = replace_suffix(rname, from, to)?;
            Rdata::Soa {
                mname: a,
                rname: b,
                serial: *serial,
                refresh: *refresh,
                retry: *retry,
                expire: *expire,
                minimum: *minimum,
            }
        },
        Rdata::Sig { covered, algorithm, labels, original_ttl, expiration, inception, key_tag, signer, signature } => {
            Rdata::Sig {
                covered: *covered,
                algorithm: *algorithm,
                labels: *labels,
                original_ttl: *original_ttl,
                expiration: *expiration,
                inception: *inception,
                key_tag: *key_tag,
                signer: replace_suffix(signer, from, to)?,
                signature: vstd::slice::slice_to_vec(signature.as_slice()),
            }
        },
        Rdata::Opaque(_) => {
            return Err(Error::Invalid);
        },
        _ => {
            return Ok(());
        },
    };
    *data = new;
    Ok(())
}

pub open spec fn is_unspecified6(a: Seq<u8>) -> bool {
    forall|i: int| 0 <= i < 16 ==> a[i] == 0
}

pub open spec fn is_loopback6(a: Seq<u8>) -> bool {
    (forall|i: int| 0 <= i < 15 ==> a[i] == 0) && a[15] == 1
}

pub open spec fn is_multicast6(a: Seq<u8>) -> bool {
    a[0] == 0xff
}

pub open spec fn is_link_local6(a: Seq<u8>) -> bool {
    a[0] == 0xfe && a[1] / 64 == 2
}

pub open spec fn is_unique_local6(a: Seq<u8>) -> bool {
    a[0] / 2 == 0x7e
}

pub open spec fn is_v4_mapped6(a: Seq<u8>) -> bool {
    (forall|i: int| 0 <= i < 10 ==> a[i] == 0) && a[10] == 0xff && a[11] == 0xff
}

pub fn unspecified6(a: &[u8; 16]) -> (r: bool)
    ensures
        r == is_unspecified6(a@),
{
    let mut i: usize = 0;
    while i < 16
        invariant
            i <= 16,
            a@.len() == 16,
            forall|j: int| 0 <= j < i ==> a@[j] == 0,
        decreases 16 - i,
    {
        if a[i] != 0 {
            return false;
        }
        i = i + 1;
    }
    true
}

pub fn loopback6(a: &[u8; 16]) -> (r: bool)
    ensures
        r == is_loopback6(a@),
{
    let mut i: usize = 0;
    while i < 15
        invariant
            i <= 15,
            a@.len() == 16,
            forall|j: int| 0 <= j < i ==> a@[j] == 0,
        decreases 15 - i,
    {
        if a[i] != 0 {
            return false;
        }
        i = i + 1;
    }
    a[15] == 1
}

pub fn v4_mapped6(a: &[u8; 16]) -> (r: bool)
    ensures
        r == is_v4_mapped6(a@),
{
    let mut i: usize = 0;
    while i < 10
        invariant
            i <= 10,
            a@.len() == 16,
            forall|j: int| 0 <= j < i ==> a@[j] == 0,
        decreases 10 - i,
    {
        if a[i] != 0 {
            return false;
        }
        i = i + 1;
    }
    a[10] == 0xff && a[11] == 0xff
}

/// Addresses that an Advertising Proxy may publish: routable unicast, not link-local.
pub open spec fn spec_usable(r: RecordV) -> bool {
    match r.data {
        RdataV::A(a) => spec_unicast(a) && !is_link_local4(a),
        RdataV::Aaaa(a) => !is_unspecified6(a) && !is_loopback6(a) && !is_multicast6(a) && !is_link_local6(a)
            && !is_v4_mapped6(a),
        _ => true,
    }
}

fn usable(r: &Record) -> (res: bool)
    ensures
        res == spec_usable(r@),
{
    match &r.data {
        Rdata::A(a) => unicast(*a) && !(a[0] == 169 && a[1] == 254),
        Rdata::Aaaa(a) => !unspecified6(a) && !loopback6(a) && a[0] != 0xff && !(a[0] == 0xfe && a[1] / 64 == 2)
            && !v4_mapped6(a),
        _ => true,
    }
}


pub open spec fn local_label() -> Seq<u8> {
    seq![108u8, 111u8, 99u8, 97u8, 108u8]
}

/// The name `local.`.
pub fn local_name() -> (r: Name)
    ensures
        r@ == seq![local_label()],
{
    let mut labels: Vec<Vec<u8>> = Vec::new();
    let mut l: Vec<u8> = Vec::new();
    l.push(108);
    l.push(111);
    l.push(99);
    l.push(97);
    l.push(108);
    assert(l@ =~= local_label());
    labels.push(l);
    assert(labels_view(labels@) =~= seq![local_label()]);
    proof {
        reveal_with_fuel(crate::dns::name::labels_bytes, 2);
        assert(seq![local_label()].drop_last() =~= Seq::<Seq<u8>>::empty());
    }
    match Name::from_labels(labels) {
        Ok(n) => n,
        Err(_) => {
            assert(false);
            Name::root()
        },
    }
}

pub open spec fn hex_digit(d: u8) -> u8 {
    if d < 10 {
        (48 + d) as u8
    } else {
        (87 + d) as u8
    }
}

/// Two lowercase hexadecimal digits per octet.
pub open spec fn hex_label(d: Seq<u8>) -> Seq<u8>
    decreases d.len(),
{
    if d.len() == 0 {
        Seq::empty()
    } else {
        hex_label(d.drop_last()) + seq![hex_digit(d.last() / 16), hex_digit(d.last() % 16)]
    }
}

/// Decimal digits of a number, most significant first.
pub open spec fn decimal(v: nat) -> Seq<u8>
    decreases v,
{
    if v < 10 {
        seq![(48 + v) as u8]
    } else {
        decimal(v / 10) + seq![(48 + v % 10) as u8]
    }
}

fn push_hex(out: &mut Vec<u8>, d: &[u8])
    ensures
        final(out)@ == old(out)@ + hex_label(d@),
{
    let mut i: usize = 0;
    while i < d.len()
        invariant
            i <= d@.len(),
            out@ == old(out)@ + hex_label(d@.take(i as int)),
        decreases d@.len() - i,
    {
        let b = d[i];
        let hi = b / 16;
        let lo = b % 16;
        out.push(if hi < 10 { 48 + hi } else { 87 + hi });
        out.push(if lo < 10 { 48 + lo } else { 87 + lo });
        proof {
            assert(d@.take(i + 1).drop_last() =~= d@.take(i as int));
        }
        i = i + 1;
        assert(out@ =~= old(out)@ + hex_label(d@.take(i as int)));
    }
    assert(d@.take(i as int) =~= d@);
}

fn push_decimal(out: &mut Vec<u8>, v: u32)
    ensures
        final(out)@ == old(out)@ + decimal(v as nat),
    decreases v,
{
    if v >= 10 {
        push_decimal(out, v / 10);
    }
    out.push((48 + v % 10) as u8);
    assert(out@ =~= old(out)@ + decimal(v as nat));
}

pub struct MappingV {
    pub zone: Seq<Seq<u8>>,
    pub label: Seq<u8>,
    pub namespace: Seq<Seq<u8>>,
}

/// The multicast namespace of one registration dataset.
pub struct Mapping {
    zone: Name,
    label: Vec<u8>,
    namespace: Name,
}

impl View for Mapping {
    type V = MappingV;

    closed spec fn view(&self) -> MappingV {
        MappingV { zone: self.zone@, label: self.label@, namespace: self.namespace@ }
    }
}

impl Clone for Mapping {
    fn clone(&self) -> (r: Mapping)
        ensures
            r@ == self@,
    {
        Mapping {
            zone: self.zone.clone(),
            label: vstd::slice::slice_to_vec(self.label.as_slice()),
            namespace: self.namespace.clone(),
        }
    }
}

fn label_name(label: &Vec<u8>) -> (r: Result<Name, Error>)
    ensures
        r is Ok <==> valid_labels(seq![label@, local_label()]),
        r matches Ok(n) ==> n@ == seq![label@, local_label()],
{
    let mut labels: Vec<Vec<u8>> = Vec::new();
    labels.push(vstd::slice::slice_to_vec(label.as_slice()));
    let l = local_name();
    let ls = l.labels();
    labels.push(vstd::slice::slice_to_vec(ls[0].as_slice()));
    assert(labels_view(labels@) =~= seq![label@, local_label()]);
    Name::from_labels(labels)
}

impl Mapping {
    /// A mapping from a non-root zone to the namespace `<hex(dataset)>.local.`, for a dataset
    /// identifier of 1..=31 octets.
    pub fn new(zone: Name, dataset: &[u8]) -> (r: Result<Mapping, Error>)
        ensures
            r is Ok <==> (zone@.len() > 0 && 1 <= dataset@.len() <= 31),
            r matches Ok(m) ==> m@ == (MappingV {
                zone: zone@,
                label: hex_label(dataset@),
                namespace: seq![hex_label(dataset@), local_label()],
            }),
    {
        if zone.label_count() == 0 || dataset.len() == 0 || dataset.len() > 31 {
            return Err(Error::Invalid);
        }
        let mut label: Vec<u8> = Vec::new();
        push_hex(&mut label, dataset);
        proof {
            lemma_hex_len(dataset@);
            reveal_with_fuel(crate::dns::name::labels_bytes, 3);
            assert(seq![hex_label(dataset@), local_label()].drop_last() =~= seq![hex_label(dataset@)]);
            assert(seq![hex_label(dataset@)].drop_last() =~= Seq::<Seq<u8>>::empty());
        }
        let namespace = label_name(&label)?;
        Ok(Mapping { zone, label, namespace })
    }

    /// The same dataset renamed after a conflict: `<label>-<version>.local.`, for versions of
    /// at least 2 whose label still fits in 63 octets.
    pub fn renamed(&self, version: u32) -> (r: Result<Mapping, Error>)
        ensures
            r is Ok <==> (version >= 2 && valid_labels(
                seq![self@.label + seq![45u8] + decimal(version as nat), local_label()],
            )),
            r matches Ok(m) ==> m@ == (MappingV {
                zone: self@.zone,
                label: self@.label,
                namespace: seq![self@.label + seq![45u8] + decimal(version as nat), local_label()],
            }),
    {
        if version < 2 {
            return Err(Error::Invalid);
        }
        let mut label = vstd::slice::slice_to_vec(self.label.as_slice());
        label.push(45);
        assert(label@ =~= self@.label + seq![45u8]);
        push_decimal(&mut label, version);
        let namespace = label_name(&label)?;
        Ok(
            Mapping {
                zone: self.zone.clone(),
                label: vstd::slice::slice_to_vec(self.label.as_slice()),
                namespace,
            },
        )
    }

    /// The multicast namespace.
    pub fn namespace(&self) -> (r: &Name)
        ensures
            r@ == self@.namespace,
    {
        &self.namespace
    }

    /// Maps a name under the zone into the namespace, or to `local.` for shared owners.
    pub fn name(&self, name: &Name, shared_owner: bool) -> (r: Result<Name, Error>)
        ensures
            match spec_replace_suffix(
                name@,
                self@.zone,
                if shared_owner { seq![local_label()] } else { self@.namespace },
            ) {
                None => r is Err,
                Some(ls) => r matches Ok(n) && n@ == ls,
            },
    {
        let local = local_name();
        replace_suffix(name, &self.zone, if shared_owner { &local } else { &self.namespace })
    }

    /// Publishes one registered record in the namespace: signatures, keys and unusable
    /// addresses are dropped; PTR owners stay shared, others claim the cache-flush bit.
    pub fn rewrite(&self, r: &Record) -> (res: Result<Option<Record>, Error>)
        ensures
            match spec_mapping_rewrite(self@, r@) {
                None => res is Err,
                Some(o) => res matches Ok(x) && (match (x, o) {
                    (None, None) => true,
                    (Some(a), Some(b)) => a@ == b,
                    _ => false,
                }),
            },
    {
        if !within(&r.name, &self.zone) {
            return Err(Error::Invalid);
        }
        if r.kind == 24 || r.kind == 25 {
            return Ok(None);
        }
        if !usable(r) {
            return Ok(None);
        }
        let mut out = r.clone();
        out.name = self.name(&r.name, r.kind == 12)?;
        rewrite_data(&mut out.data, &self.zone, &self.namespace)?;
        out.class = (r.class % 32768) + if r.kind == 12 { 0 } else { 32768 };
        Ok(Some(out))
    }
}

pub open spec fn spec_mapping_rewrite(m: MappingV, r: RecordV) -> Option<Option<RecordV>> {
    if !spec_within(r.name, m.zone) {
        None
    } else if r.kind == 24 || r.kind == 25 || !spec_usable(r) {
        Some(None)
    } else {
        match spec_replace_suffix(r.name, m.zone, if r.kind == 12 { seq![local_label()] } else { m.namespace }) {
            None => None,
            Some(name) => match spec_rewrite_data(r.data, m.zone, m.namespace) {
                None => None,
                Some(data) => Some(
                    Some(
                        RecordV {
                            name,
                            kind: r.kind,
                            class: ((r.class % 32768) + if r.kind == 12 { 0int } else { 32768int }) as u16,
                            ttl: r.ttl,
                            data,
                        },
                    ),
                ),
            },
        }
    }
}

proof fn lemma_hex_len(d: Seq<u8>)
    ensures
        hex_label(d).len() == 2 * d.len(),
    decreases d.len(),
{
    if d.len() > 0 {
        lemma_hex_len(d.drop_last());
    }
}

} // verus!
