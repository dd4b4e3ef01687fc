//! RFC 8766 authoritative view of a single AIL multicast namespace.
use crate::dns::name::{labels_bytes, labels_view, lower, lower_label, lower_labels, name_wire, canonical_wire, valid_labels, Name};
use crate::dns::wire::{
    bitmap_valid, bitmap_walk, questions_view, records_view, spec_bitmap_valid, Message, MessageV, Question, QuestionV, Rdata,
    RdataV, Record, RecordV,
};
use crate::bytes::{copy_range, push_bytes};
use crate::error::Error;
use crate::ipv4::{is_link_local4, is_private4, spec_unicast, unicast};
use crate::mdns::advertise::{
    is_link_local6, is_loopback6, label_eq_ci, is_multicast6, is_unique_local6, is_unspecified6, is_v4_mapped6, local_label,
    local_name, loopback6, replace_suffix, rewrite_data, spec_replace_suffix, spec_rewrite_data, spec_within,
    unspecified6, v4_mapped6, within,
};
use crate::digest::{sha1, sha1_digest};
use vstd::prelude::*;

pub mod query;

verus! {

/// What the querier can reach, for filtering address records.
#[derive(Clone, Copy, Debug)]
pub struct Reachability {
    pub on_link: bool,
    pub ipv4_link_local: bool,
    pub different_private_realm: bool,
    pub different_ula_realm: bool,
    pub include_unusable: bool,
}

impl Default for Reachability {
    fn default() -> (r: Reachability)
        ensures
            !r.on_link && !r.ipv4_link_local && !r.different_private_realm && !r.different_ula_realm
                && !r.include_unusable,
    {
        Reachability {
            on_link: false,
            ipv4_link_local: false,
            different_private_realm: false,
            different_ula_realm: false,
            include_unusable: false,
        }
    }
}

/// Which configured domain a name falls in.
#[derive(Clone, Copy, Debug, PartialEq, Eq, Structural)]
pub enum Scope {
    Service,
    Host,
    Reverse(usize),
}

/// A unicast question and the multicast question that answers it.
#[derive(Debug)]
pub struct TranslatedQuestion {
    pub original: Question,
    pub multicast: Question,
    pub scope: Scope,
}

pub struct TranslatedV {
    pub original: QuestionV,
    pub multicast: QuestionV,
    pub scope: Scope,
}

impl View for TranslatedQuestion {
    type V = TranslatedV;

    open spec fn view(&self) -> TranslatedV {
        TranslatedV { original: self.original@, multicast: self.multicast@, scope: self.scope }
    }
}

pub open spec fn is_alnum(c: u8) -> bool {
    (48 <= c <= 57) || (65 <= c <= 90) || (97 <= c <= 122)
}

/// A host name of letter-digit-hyphen labels that start and end alphanumeric.
pub open spec fn spec_ldh(n: Seq<Seq<u8>>) -> bool {
    &&& n.len() > 0
    &&& forall|i: int| 0 <= i < n.len() ==> {
        let l = #[trigger] n[i];
        &&& l.len() > 0
        &&& is_alnum(l[0])
        &&& is_alnum(l.last())
        &&& forall|j: int| 0 <= j < l.len() ==> is_alnum(#[trigger] l[j]) || l[j] == 45
    }
}

fn alnum(c: u8) -> (r: bool)
    ensures
        r == is_alnum(c),
{
    (48 <= c && c <= 57) || (65 <= c && c <= 90) || (97 <= c && c <= 122)
}

fn ldh_label(l: &[u8]) -> (r: bool)
    ensures
        r == (l@.len() > 0 && is_alnum(l@[0]) && is_alnum(l@.last()) && forall|j: int|
            0 <= j < l@.len() ==> is_alnum(#[trigger] l@[j]) || l@[j] == 45),
{
    let n = l.len();
    if n == 0 || !alnum(l[0]) || !alnum(l[n - 1]) {
        return false;
    }
    let mut j: usize = 0;
    while j < n
        invariant
            n == l@.len(),
            j <= n,
            forall|k: int| 0 <= k < j ==> is_alnum(#[trigger] l@[k]) || l@[k] == 45,
        decreases n - j,
    {
        if !alnum(l[j]) && l[j] != 45 {
            return false;
        }
        j = j + 1;
    }
    true
}

pub fn ldh(name: &Name) -> (r: bool)
    ensures
        r == spec_ldh(name@),
{
    let ls = name.labels();
    if ls.len() == 0 {
        return false;
    }
    let mut i: usize = 0;
    while i < ls.len()
        invariant
            labels_view(ls@) == name@,
            i <= ls@.len(),
            forall|k: int| 0 <= k < i ==> {
                let l = #[trigger] name@[k];
                &&& l.len() > 0
                &&& is_alnum(l[0])
                &&& is_alnum(l.last())
                &&& forall|j: int| 0 <= j < l.len() ==> is_alnum(#[trigger] l[j]) || l[j] == 45
            },
        decreases ls@.len() - i,
    {
        assert(ls@[i as int]@ == name@[i as int]);
        if !ldh_label(ls[i].as_slice()) {
            return false;
        }
        i = i + 1;
    }
    true
}

/// Whether an address record is worth returning to this querier.
pub open spec fn spec_dp_usable(r: RecordV, reach: Reachability) -> bool {
    match r.data {
        RdataV::A(a) => spec_unicast(a) && (reach.include_unusable || ((!is_link_local4(a) || reach.on_link
            || reach.ipv4_link_local) && (!is_private4(a) || !reach.different_private_realm))),
        RdataV::Aaaa(a) => !is_unspecified6(a) && !is_loopback6(a) && !is_multicast6(a) && !is_v4_mapped6(a)
            && (reach.include_unusable || ((!is_link_local6(a) || reach.on_link) && (!is_unique_local6(a)
            || !reach.different_ula_realm))),
        _ => true,
    }
}

pub fn usable(r: &Record, reach: &Reachability) -> (res: bool)
    ensures
        res == spec_dp_usable(r@, *reach),
{
    match &r.data {
        Rdata::A(a) => {
            let link_local = a[0] == 169 && a[1] == 254;
            let private = a[0] == 10 || (a[0] == 172 && 16 <= a[1] && a[1] < 32) || (a[0] == 192 && a[1] == 168);
            unicast(*a) && (reach.include_unusable || ((!link_local || reach.on_link || reach.ipv4_link_local) && (
            !private || !reach.different_private_realm)))
        },
        Rdata::Aaaa(a) => {
            let link_local = a[0] == 0xfe && a[1] / 64 == 2;
            let ula = a[0] / 2 == 0x7e;
            !unspecified6(a) && !loopback6(a) && a[0] != 0xff && !v4_mapped6(a) && (reach.include_unusable || ((
            !link_local || reach.on_link) && (!ula || !reach.different_ula_realm)))
        },
        _ => true,
    }
}

pub open spec fn in_addr_arpa() -> Seq<Seq<u8>> {
    seq![seq![105u8, 110u8, 45u8, 97u8, 100u8, 100u8, 114u8], seq![97u8, 114u8, 112u8, 97u8]]
}

pub open spec fn ip6_arpa() -> Seq<Seq<u8>> {
    seq![seq![105u8, 112u8, 54u8], seq![97u8, 114u8, 112u8, 97u8]]
}

pub open spec fn names_view(v: Seq<Name>) -> Seq<Seq<Seq<u8>>> {
    v.map_values(|n: Name| n@)
}

pub open spec fn opt_name(o: Option<Name>) -> Option<Seq<Seq<u8>>> {
    match o {
        Some(n) => Some(n@),
        None => None,
    }
}

/// The configured domains of the proxy.
pub struct ZoneV {
    pub service: Seq<Seq<u8>>,
    pub host: Option<Seq<Seq<u8>>>,
    pub reverse: Seq<Seq<Seq<u8>>>,
    pub nameservers: Seq<Seq<Seq<u8>>>,
    pub mailbox: Seq<Seq<u8>>,
}

/// A usable configuration: a service domain, an LDH host domain, at most 64 reverse
/// zones under in-addr.arpa or ip6.arpa, and one to eight name servers outside every
/// served domain.
pub open spec fn zone_ok(z: ZoneV) -> bool {
    &&& z.service.len() > 0
    &&& (z.host matches Some(h) ==> spec_ldh(h))
    &&& z.reverse.len() <= 64
    &&& z.nameservers.len() > 0 && z.nameservers.len() <= 8
    &&& forall|i: int| 0 <= i < z.reverse.len() ==> spec_within(#[trigger] z.reverse[i], in_addr_arpa())
        || spec_within(z.reverse[i], ip6_arpa())
    &&& forall|j: int| 0 <= j < z.nameservers.len() ==> ns_outside(z.service, z.host, z.reverse, #[trigger] z.nameservers[j])
}

pub open spec fn ns_outside(service: Seq<Seq<u8>>, host: Option<Seq<Seq<u8>>>, reverse: Seq<Seq<Seq<u8>>>, n: Seq<Seq<u8>>) -> bool {
    &&& n.len() > 0
    &&& !spec_within(n, service)
    &&& !(host matches Some(h) && spec_within(n, h))
    &&& forall|i: int| 0 <= i < reverse.len() ==> !spec_within(n, #[trigger] reverse[i])
}

pub struct Zone {
    service: Name,
    host: Option<Name>,
    reverse: Vec<Name>,
    nameservers: Vec<Name>,
    mailbox: Name,
}

impl View for Zone {
    type V = ZoneV;

    closed spec fn view(&self) -> ZoneV {
        ZoneV {
            service: self.service@,
            host: opt_name(self.host),
            reverse: names_view(self.reverse@),
            nameservers: names_view(self.nameservers@),
            mailbox: self.mailbox@,
        }
    }
}

fn arpa_names() -> (r: (Name, Name))
    ensures
        r.0@ == in_addr_arpa(),
        r.1@ == ip6_arpa(),
{
    let a: Vec<Vec<u8>> = vec![vec![105, 110, 45, 97, 100, 100, 114], vec![97, 114, 112, 97]];
    let b: Vec<Vec<u8>> = vec![vec![105, 112, 54], vec![97, 114, 112, 97]];
    assert(labels_view(a@) =~= in_addr_arpa());
    assert(labels_view(b@) =~= ip6_arpa());
    proof {
        reveal_with_fuel(crate::dns::name::labels_bytes, 3);
    }
    let x = match Name::from_labels(a) {
        Ok(n) => n,
        Err(_) => {
            assert(false);
            Name::root()
        },
    };
    let y = match Name::from_labels(b) {
        Ok(n) => n,
        Err(_) => {
            assert(false);
            Name::root()
        },
    };
    (x, y)
}

fn clone_names(v: &[Name]) -> (r: Vec<Name>)
    ensures
        names_view(r@) == names_view(v@),
{
    let mut out: Vec<Name> = Vec::new();
    let mut i: usize = 0;
    while i < v.len()
        invariant
            i <= v@.len(),
            out@.len() == i,
            forall|k: int| 0 <= k < i ==> (#[trigger] out@[k])@ == v@[k]@,
        decreases v@.len() - i,
    {
        let c = v[i].clone();
        out.push(c);
        i = i + 1;
    }
    assert(names_view(out@) =~= names_view(v@));
    out
}

fn reverse_ok(reverse: &[Name]) -> (r: bool)
    ensures
        r == forall|i: int| 0 <= i < reverse@.len() ==> spec_within(#[trigger] names_view(reverse@)[i], in_addr_arpa())
            || spec_within(names_view(reverse@)[i], ip6_arpa()),
{
    let (v4, v6) = arpa_names();
    let mut i: usize = 0;
    while i < reverse.len()
        invariant
            v4@ == in_addr_arpa(),
            v6@ == ip6_arpa(),
            i <= reverse@.len(),
            forall|k: int| 0 <= k < i ==> spec_within(#[trigger] names_view(reverse@)[k], in_addr_arpa())
                || spec_within(names_view(reverse@)[k], ip6_arpa()),
        decreases reverse@.len() - i,
    {
        if !within(&reverse[i], &v4) && !within(&reverse[i], &v6) {
            assert(names_view(reverse@)[i as int] == reverse@[i as int]@);
            return false;
        }
        i = i + 1;
    }
    true
}

fn outside(n: &Name, service: &Name, host: &Option<Name>, reverse: &[Name]) -> (r: bool)
    ensures
        r == ns_outside(service@, opt_name(*host), names_view(reverse@), n@),
{
    if n.label_count() == 0 || within(n, service) {
        return false;
    }
    match host {
        Some(h) => {
            if within(n, h) {
                return false;
            }
        },
        None => {},
    }
    let mut i: usize = 0;
    while i < reverse.len()
        invariant
            i <= reverse@.len(),
            forall|k: int| 0 <= k < i ==> !spec_within(n@, #[trigger] names_view(reverse@)[k]),
        decreases reverse@.len() - i,
    {
        if within(n, &reverse[i]) {
            assert(names_view(reverse@)[i as int] == reverse@[i as int]@);
            assert(spec_within(n@, names_view(reverse@)[i as int]));
            return false;
        }
        i = i + 1;
    }
    true
}

impl Clone for Zone {
    fn clone(&self) -> (r: Zone)
        ensures
            r@ == self@,
    {
        proof {
            use_type_invariant(self);
        }
        let host = match &self.host {
            Some(h) => Some(h.clone()),
            None => None,
        };
        Zone {
            service: self.service.clone(),
            host,
            reverse: clone_names(self.reverse.as_slice()),
            nameservers: clone_names(self.nameservers.as_slice()),
            mailbox: self.mailbox.clone(),
        }
    }
}

impl Zone {
    #[verifier::type_invariant]
    spec fn inv(self) -> bool {
        zone_ok(self@)
    }

    /// Checks and keeps the proxy's domains.
    pub fn new(service: Name, host: Option<Name>, reverse: &[Name], nameservers: &[Name], mailbox: Name) -> (r:
        Result<Zone, Error>)
        ensures
            ({
                let want = ZoneV {
                    service: service@,
                    host: opt_name(host),
                    reverse: names_view(reverse@),
                    nameservers: names_view(nameservers@),
                    mailbox: mailbox@,
                };
                &&& r is Ok <==> zone_ok(want)
                &&& r matches Ok(z) ==> z@ == want
                &&& r matches Err(e) ==> e == Error::Invalid
            }),
    {
        let ghost want = ZoneV {
            service: service@,
            host: opt_name(host),
            reverse: names_view(reverse@),
            nameservers: names_view(nameservers@),
            mailbox: mailbox@,
        };
        if service.label_count() == 0 {
            return Err(Error::Invalid);
        }
        match &host {
            Some(h) => {
                if !ldh(h) {
                    return Err(Error::Invalid);
                }
            },
            None => {},
        }
        if reverse.len() > 64 || nameservers.len() == 0 || nameservers.len() > 8 || !reverse_ok(reverse) {
            return Err(Error::Invalid);
        }
        let mut j: usize = 0;
        while j < nameservers.len()
            invariant
                j <= nameservers@.len(),
                want == (ZoneV {
                    service: service@,
                    host: opt_name(host),
                    reverse: names_view(reverse@),
                    nameservers: names_view(nameservers@),
                    mailbox: mailbox@,
                }),
                forall|k: int| 0 <= k < j ==> ns_outside(want.service, want.host, want.reverse, #[trigger] want.nameservers[k]),
            decreases nameservers@.len() - j,
        {
            let ok = outside(&nameservers[j], &service, &host, reverse);
            assert(want.nameservers[j as int] == nameservers@[j as int]@);
            if !ok {
                return Err(Error::Invalid);
            }
            j = j + 1;
        }
        let z = Zone {
            service,
            host,
            reverse: clone_names(reverse),
            nameservers: clone_names(nameservers),
            mailbox,
        };
        assert(z@ == want);
        Ok(z)
    }
}

/// Keeps the candidate domain when the name lies in it and it is at least as specific as
/// the best so far; among equally specific domains the later one wins.
pub open spec fn pick(best: Option<(Scope, nat)>, s: Scope, d: Seq<Seq<u8>>, name: Seq<Seq<u8>>) -> Option<(Scope, nat)> {
    if spec_within(name, d) && (best is None || d.len() >= (best->0).1) {
        Some((s, d.len()))
    } else {
        best
    }
}

pub open spec fn pick_reverse(z: ZoneV, name: Seq<Seq<u8>>, i: int, best: Option<(Scope, nat)>) -> Option<(Scope, nat)>
    decreases z.reverse.len() - i,
{
    if i < 0 || i >= z.reverse.len() {
        best
    } else {
        pick_reverse(z, name, i + 1, pick(best, Scope::Reverse(i as usize), z.reverse[i], name))
    }
}

/// The most specific configured domain that holds the name: the service domain, then the
/// host domain, then the reverse zones in order.
pub open spec fn spec_scope(z: ZoneV, name: Seq<Seq<u8>>) -> Option<Scope> {
    let b0 = pick(None, Scope::Service, z.service, name);
    let b1 = match z.host {
        Some(h) => pick(b0, Scope::Host, h, name),
        None => b0,
    };
    match pick_reverse(z, name, 0, b1) {
        Some((s, _)) => Some(s),
        None => None,
    }
}

/// The domain of a scope, if the zone has it.
pub open spec fn spec_domain(z: ZoneV, s: Scope) -> Option<Seq<Seq<u8>>> {
    match s {
        Scope::Service => Some(z.service),
        Scope::Host => z.host,
        Scope::Reverse(i) => if i < z.reverse.len() { Some(z.reverse[i as int]) } else { None },
    }
}

pub open spec fn spec_host_domain(z: ZoneV) -> Seq<Seq<u8>> {
    match z.host {
        Some(h) => h,
        None => z.service,
    }
}

proof fn lemma_pick_reverse_valid(z: ZoneV, name: Seq<Seq<u8>>, i: int, best: Option<(Scope, nat)>)
    requires
        0 <= i <= z.reverse.len(),
        z.reverse.len() <= 64,
        best matches Some((s, _)) ==> spec_domain(z, s) is Some && spec_within(name, spec_domain(z, s)->0),
    ensures
        pick_reverse(z, name, i, best) matches Some((s, _)) ==> spec_domain(z, s) is Some && spec_within(name, spec_domain(z, s)->0),
    decreases z.reverse.len() - i,
{
    if i < z.reverse.len() {
        assert(spec_domain(z, Scope::Reverse(i as usize)) == Some(z.reverse[i]));
        lemma_pick_reverse_valid(z, name, i + 1, pick(best, Scope::Reverse(i as usize), z.reverse[i], name));
    }
}

/// A scope chosen for a name always has its domain.
pub proof fn lemma_scope_has_domain(z: ZoneV, name: Seq<Seq<u8>>)
    requires
        zone_ok(z),
    ensures
        spec_scope(z, name) matches Some(s) ==> spec_domain(z, s) is Some && spec_within(name, spec_domain(z, s)->0),
{
    let b0 = pick(None, Scope::Service, z.service, name);
    let b1 = match z.host {
        Some(h) => pick(b0, Scope::Host, h, name),
        None => b0,
    };
    lemma_pick_reverse_valid(z, name, 0, b1);
}

impl Zone {
    fn scope(&self, name: &Name) -> (r: Option<Scope>)
        ensures
            r == spec_scope(self@, name@),
    {
        let ghost z = self@;
        let mut best: Option<(Scope, usize)> = None;
        if within(name, &self.service) {
            best = Some((Scope::Service, self.service.label_count()));
        }
        match &self.host {
            Some(h) => {
                if within(name, h) && (best.is_none() || h.label_count() >= best.unwrap().1) {
                    best = Some((Scope::Host, h.label_count()));
                }
            },
            None => {},
        }
        let ghost b1 = match z.host {
            Some(h) => pick(pick(None, Scope::Service, z.service, name@), Scope::Host, h, name@),
            None => pick(None, Scope::Service, z.service, name@),
        };
        assert(b1 == match best {
            Some((s, n)) => Some((s, n as nat)),
            None => None,
        });
        let mut i: usize = 0;
        while i < self.reverse.len()
            invariant
                z == self@,
                i <= self.reverse@.len(),
                z.reverse.len() == self.reverse@.len(),
                pick_reverse(z, name@, 0, b1) == pick_reverse(z, name@, i as int, match best {
                    Some((s, n)) => Some((s, n as nat)),
                    None => None,
                }),
            decreases self.reverse@.len() - i,
        {
            let d = &self.reverse[i];
            assert(z.reverse[i as int] == d@);
            if within(name, d) && (best.is_none() || d.label_count() >= best.unwrap().1) {
                best = Some((Scope::Reverse(i), d.label_count()));
            }
            i = i + 1;
        }
        match best {
            Some((s, _)) => Some(s),
            None => None,
        }
    }

    fn domain(&self, scope: Scope) -> (r: Result<&Name, Error>)
        ensures
            match spec_domain(self@, scope) {
                Some(d) => r matches Ok(n) && n@ == d,
                None => r == Err::<&Name, Error>(Error::Invalid),
            },
    {
        match scope {
            Scope::Service => Ok(&self.service),
            Scope::Host => match &self.host {
                Some(h) => Ok(h),
                None => Err(Error::Invalid),
            },
            Scope::Reverse(i) => {
                if i < self.reverse.len() {
                    Ok(&self.reverse[i])
                } else {
                    Err(Error::Invalid)
                }
            },
        }
    }

    fn host_domain(&self) -> (r: &Name)
        ensures
            r@ == spec_host_domain(self@),
    {
        match &self.host {
            Some(h) => h,
            None => &self.service,
        }
    }
}

pub open spec fn local_domain() -> Seq<Seq<u8>> {
    seq![local_label()]
}

/// The multicast question for a unicast one, or `None` outside every configured domain.
pub open spec fn spec_question(z: ZoneV, q: QuestionV) -> Result<Option<TranslatedV>, Error> {
    if q.class != 1 || q.kind == 0 {
        Err(Error::Invalid)
    } else {
        match spec_scope(z, q.name) {
            None => Ok(None),
            Some(s) => {
                let name = if s is Reverse {
                    Some(q.name)
                } else {
                    spec_replace_suffix(q.name, spec_domain(z, s)->0, local_domain())
                };
                match name {
                    None => Err(Error::Invalid),
                    Some(n) => Ok(
                        Some(
                            TranslatedV {
                                original: q,
                                multicast: QuestionV {
                                    name: n,
                                    kind: if q.kind == 47 || q.kind == 50 { 255 } else { q.kind },
                                    class: q.class,
                                },
                                scope: s,
                            },
                        ),
                    ),
                }
            },
        }
    }
}

pub open spec fn is_infrastructure_kind(k: u16) -> bool {
    k == 2 || k == 6 || k == 24 || k == 41 || k == 43 || k == 46
}

/// Whether the rewritten record's targets belong in the host domain.
pub open spec fn host_target(r: RecordV, q: TranslatedV, host_owner: bool) -> bool {
    host_owner || q.scope is Host || q.scope is Reverse || r.kind == 15 || r.kind == 18 || r.kind == 21 || r.kind
        == 33 || r.kind == 36 || ((r.kind == 5 || r.kind == 39) && (q.original.kind == 1 || q.original.kind == 28))
        || (r.data matches RdataV::Svcb { priority, .. } && priority >= 1)
}

/// A multicast answer moved into the unicast domain, with the TTL capped at ten seconds.
pub open spec fn spec_rewrite(z: ZoneV, r: RecordV, q: TranslatedV, additional: bool, reach: Reachability) -> Result<
    Option<RecordV>,
    Error,
> {
    if spec_scope(z, q.original.name) != Some(q.scope) {
        Err(Error::Invalid)
    } else if r.class & 0x7fffu16 != 1 || r.ttl == 0 || is_infrastructure_kind(r.kind) || !spec_dp_usable(r, reach) {
        Ok(None)
    } else if r.kind == 47 || r.kind == 50 {
        Err(Error::Invalid)
    } else {
        let host_owner = additional && (r.kind == 1 || r.kind == 5 || r.kind == 28);
        let owner_domain = if host_owner { spec_host_domain(z) } else { spec_domain(z, q.scope)->0 };
        let target_domain = if host_target(r, q, host_owner) {
            spec_host_domain(z)
        } else {
            spec_domain(z, q.scope)->0
        };
        match spec_replace_suffix(r.name, local_domain(), owner_domain) {
            None => Err(Error::Invalid),
            Some(n) => match spec_rewrite_data(r.data, local_domain(), target_domain) {
                None => Err(Error::Invalid),
                Some(d) => Ok(
                    Some(
                        RecordV {
                            name: n,
                            kind: r.kind,
                            class: r.class & 0x7fffu16,
                            ttl: if r.ttl < 10 { r.ttl } else { 10 },
                            data: d,
                        },
                    ),
                ),
            },
        }
    }
}

pub open spec fn opt_translated(o: Option<TranslatedQuestion>) -> Option<TranslatedV> {
    match o {
        Some(t) => Some(t@),
        None => None,
    }
}

pub open spec fn opt_record(o: Option<Record>) -> Option<RecordV> {
    match o {
        Some(r) => Some(r@),
        None => None,
    }
}

impl Zone {
    /// Translates a unicast question into the multicast question that answers it.
    pub fn question(&self, q: &Question) -> (r: Result<Option<TranslatedQuestion>, Error>)
        ensures
            match r {
                Ok(t) => spec_question(self@, q@) == Ok::<Option<TranslatedV>, Error>(opt_translated(t)),
                Err(e) => spec_question(self@, q@) == Err::<Option<TranslatedV>, Error>(e),
            },
    {
        if q.class != 1 || q.kind == 0 {
            return Err(Error::Invalid);
        }
        let scope = match self.scope(&q.name) {
            None => return Ok(None),
            Some(s) => s,
        };
        proof {
            use_type_invariant(self);
            lemma_scope_has_domain(self@, q.name@);
        }
        let mut multicast = q.clone();
        match scope {
            Scope::Reverse(_) => {},
            _ => {
                let d = match self.domain(scope) {
                    Ok(d) => d,
                    Err(e) => return Err(e),
                };
                let local = local_name();
                multicast.name = match replace_suffix(&q.name, d, &local) {
                    Ok(n) => n,
                    Err(_) => return Err(Error::Invalid),
                };
            },
        }
        if q.kind == 47 || q.kind == 50 {
            multicast.kind = 255;
        }
        Ok(Some(TranslatedQuestion { original: q.clone(), multicast, scope }))
    }

    /// Rewrites one multicast answer into the unicast domain; `None` drops it.
    pub fn rewrite(&self, r: &Record, q: &TranslatedQuestion, additional: bool, reach: &Reachability) -> (res: Result<
        Option<Record>,
        Error,
    >)
        ensures
            match res {
                Ok(o) => spec_rewrite(self@, r@, q@, additional, *reach) == Ok::<Option<RecordV>, Error>(opt_record(o)),
                Err(e) => spec_rewrite(self@, r@, q@, additional, *reach) == Err::<Option<RecordV>, Error>(e),
            },
    {
        match self.scope(&q.original.name) {
            Some(s) => {
                if s != q.scope {
                    return Err(Error::Invalid);
                }
            },
            None => return Err(Error::Invalid),
        }
        proof {
            use_type_invariant(self);
            lemma_scope_has_domain(self@, q.original.name@);
        }
        let k = r.kind;
        if r.class & 0x7fff != 1 || r.ttl == 0 || k == 2 || k == 6 || k == 24 || k == 41 || k == 43 || k == 46
            || !usable(r, reach) {
            return Ok(None);
        }
        if k == 47 || k == 50 {
            return Err(Error::Invalid);
        }
        let local = local_name();
        let host_owner = additional && (k == 1 || k == 5 || k == 28);
        let scoped = match self.domain(q.scope) {
            Ok(d) => d,
            Err(e) => return Err(e),
        };
        let owner_domain = if host_owner { self.host_domain() } else { scoped };
        let mut out = r.clone();
        out.name = match replace_suffix(&r.name, &local, owner_domain) {
            Ok(n) => n,
            Err(_) => return Err(Error::Invalid),
        };
        let svcb_service = match &r.data {
            Rdata::Svcb { priority, .. } => *priority >= 1,
            _ => false,
        };
        let hosted = host_owner || q.scope == Scope::Host || match q.scope {
            Scope::Reverse(_) => true,
            _ => false,
        } || k == 15 || k == 18 || k == 21 || k == 33 || k == 36 || ((k == 5 || k == 39) && (q.original.kind == 1
            || q.original.kind == 28)) || svcb_service;
        assert(hosted == host_target(r@, q@, host_owner));
        let target_domain = if hosted { self.host_domain() } else { scoped };
        match rewrite_data(&mut out.data, &local, target_domain) {
            Ok(()) => {},
            Err(_) => return Err(Error::Invalid),
        }
        out.class = out.class & 0x7fff;
        out.ttl = if out.ttl < 10 { out.ttl } else { 10 };
        Ok(Some(out))
    }

    fn soa(&self, scope: Scope) -> (r: Result<Record, Error>)
        ensures
            match spec_domain(self@, scope) {
                Some(d) => r matches Ok(rec) && rec@ == spec_soa(self@, d),
                None => r == Err::<Record, Error>(Error::Invalid),
            },
    {
        proof {
            use_type_invariant(self);
        }
        let d = match self.domain(scope) {
            Ok(d) => d,
            Err(e) => return Err(e),
        };
        assert(self@.nameservers[0] == self.nameservers@[0]@);
        Ok(
            Record {
                name: d.clone(),
                kind: 6,
                class: 1,
                ttl: 10,
                data: Rdata::Soa {
                    mname: self.nameservers[0].clone(),
                    rname: self.mailbox.clone(),
                    serial: 0,
                    refresh: 7200,
                    retry: 3600,
                    expire: 86400,
                    minimum: 10,
                },
            },
        )
    }
}

/// The proxy's SOA for a domain: the first name server as primary, the configured mailbox.
pub open spec fn spec_soa(z: ZoneV, d: Seq<Seq<u8>>) -> RecordV {
    RecordV {
        name: d,
        kind: 6,
        class: 1,
        ttl: 10,
        data: RdataV::Soa {
            mname: z.nameservers[0],
            rname: z.mailbox,
            serial: 0,
            refresh: 7200,
            retry: 3600,
            expire: 86400,
            minimum: 10,
        },
    }
}

/// The base32hex alphabet of RFC 4648.
pub open spec fn b32(v: u8) -> u8 {
    if v < 10 {
        (48 + v) as u8
    } else {
        (55 + v) as u8
    }
}

/// Eight base32hex characters for five octets, most significant bits first.
pub open spec fn b32_group(a: u8, b: u8, c: u8, d: u8, e: u8) -> Seq<u8> {
    seq![
        b32(a >> 3u8),
        b32(((a & 7u8) << 2u8) | (b >> 6u8)),
        b32((b >> 1u8) & 31u8),
        b32(((b & 1u8) << 4u8) | (c >> 4u8)),
        b32(((c & 15u8) << 1u8) | (d >> 7u8)),
        b32((d >> 2u8) & 31u8),
        b32(((d & 3u8) << 3u8) | (e >> 5u8)),
        b32(e & 31u8),
    ]
}

/// Base32hex of octets whose count is a multiple of five, without padding.
pub open spec fn spec_base32hex(b: Seq<u8>) -> Seq<u8>
    decreases b.len(),
{
    if b.len() < 5 {
        Seq::empty()
    } else {
        b32_group(b[0], b[1], b[2], b[3], b[4]) + spec_base32hex(b.skip(5))
    }
}

fn b32_char(v: u8) -> (r: u8)
    requires
        v < 32,
    ensures
        r == b32(v),
{
    if v < 10 {
        48 + v
    } else {
        55 + v
    }
}

pub fn base32hex(bytes: &[u8]) -> (r: Vec<u8>)
    requires
        bytes@.len() == 20,
    ensures
        r@ == spec_base32hex(bytes@),
{
    let mut out: Vec<u8> = Vec::new();
    let mut g: usize = 0;
    assert(bytes@.skip(0) =~= bytes@);
    assert(out@ + spec_base32hex(bytes@) =~= spec_base32hex(bytes@));
    while g < 20
        invariant
            bytes@.len() == 20,
            g <= 20,
            g % 5 == 0,
            out@ + spec_base32hex(bytes@.skip(g as int)) == spec_base32hex(bytes@),
        decreases 20 - g,
    {
        let a = bytes[g];
        let b = bytes[g + 1];
        let c = bytes[g + 2];
        let d = bytes[g + 3];
        let e = bytes[g + 4];
        let ghost before = out@;
        assert(a >> 3u8 < 32u8) by (bit_vector);
        assert(((a & 7u8) << 2u8) | (b >> 6u8) < 32u8) by (bit_vector);
        assert((b >> 1u8) & 31u8 < 32u8) by (bit_vector);
        assert(((b & 1u8) << 4u8) | (c >> 4u8) < 32u8) by (bit_vector);
        assert(((c & 15u8) << 1u8) | (d >> 7u8) < 32u8) by (bit_vector);
        assert((d >> 2u8) & 31u8 < 32u8) by (bit_vector);
        assert(((d & 3u8) << 3u8) | (e >> 5u8) < 32u8) by (bit_vector);
        assert(e & 31u8 < 32u8) by (bit_vector);
        out.push(b32_char(a >> 3));
        out.push(b32_char(((a & 7) << 2) | (b >> 6)));
        out.push(b32_char((b >> 1) & 31));
        out.push(b32_char(((b & 1) << 4) | (c >> 4)));
        out.push(b32_char(((c & 15) << 1) | (d >> 7)));
        out.push(b32_char((d >> 2) & 31));
        out.push(b32_char(((d & 3) << 3) | (e >> 5)));
        out.push(b32_char(e & 31));
        proof {
            let s = bytes@.skip(g as int);
            assert(s[0] == a && s[1] == b && s[2] == c && s[3] == d && s[4] == e);
            assert(s.skip(5) =~= bytes@.skip(g + 5));
            assert(out@ =~= before + b32_group(a, b, c, d, e));
        }
        g = g + 5;
    }
    proof {
        assert(bytes@.skip(20) =~= Seq::<u8>::empty());
        assert(out@ + Seq::<u8>::empty() =~= out@);
    }
    out
}

/// The big-endian successor of octets, wrapping to zero.
pub open spec fn spec_increment(s: Seq<u8>) -> Seq<u8>
    decreases s.len(),
{
    if s.len() == 0 {
        s
    } else if s.last() == 255 {
        spec_increment(s.drop_last()).push(0u8)
    } else {
        s.drop_last().push((s.last() + 1) as u8)
    }
}

proof fn lemma_increment_len(s: Seq<u8>)
    ensures
        spec_increment(s).len() == s.len(),
    decreases s.len(),
{
    if s.len() > 0 && s.last() == 255 {
        lemma_increment_len(s.drop_last());
    }
}

fn increment(v: &mut Vec<u8>)
    ensures
        final(v)@ == spec_increment(old(v)@),
{
    let n = v.len();
    let mut i = n;
    proof {
        assert(old(v)@.take(n as int) =~= old(v)@);
        assert(v@.take(n as int) =~= old(v)@.take(n as int));
        assert(spec_increment(old(v)@) + Seq::new(0nat, |k: int| 0u8) =~= spec_increment(old(v)@));
    }
    loop
        invariant_except_break
            i <= n,
            n == v@.len(),
            n == old(v)@.len(),
            forall|k: int| i <= k < n ==> v@[k] == 0,
            v@.take(i as int) == old(v)@.take(i as int),
            forall|k: int| i <= k < n ==> old(v)@[k] == 255,
            spec_increment(old(v)@) == spec_increment(old(v)@.take(i as int)) + Seq::new((n - i) as nat, |k: int| 0u8),
        ensures
            final(v)@ == spec_increment(old(v)@),
        decreases i,
    {
        if i == 0 {
            proof {
                assert(old(v)@.take(0) =~= Seq::<u8>::empty());
                assert(v@ =~= Seq::<u8>::empty() + Seq::new(n as nat, |k: int| 0u8));
            }
            break;
        }
        let x = v[i - 1];
        if x == 255 {
            proof {
                let t = old(v)@.take(i as int);
                assert(t.last() == 255);
                assert(t.drop_last() =~= old(v)@.take(i - 1));
                assert(spec_increment(t) == spec_increment(t.drop_last()).push(0u8));
                assert(spec_increment(old(v)@.take(i - 1)) + Seq::new((n - i + 1) as nat, |k: int| 0u8)
                    =~= spec_increment(old(v)@.take(i - 1)).push(0u8) + Seq::new((n - i) as nat, |k: int| 0u8));
            }
            v.set(i - 1, 0);
            i = i - 1;
            proof {
                assert(v@.take(i as int) =~= old(v)@.take(i as int));
            }
        } else {
            v.set(i - 1, x + 1);
            proof {
                let t = old(v)@.take(i as int);
                assert(t.drop_last() =~= old(v)@.take(i - 1));
                assert(v@ =~= t.drop_last().push((x + 1) as u8) + Seq::new((n - i) as nat, |k: int| 0u8));
            }
            break;
        }
    }
}

/// The last position before `n` whose octet is below 255.
pub open spec fn last_below_max(l: Seq<u8>, n: int) -> Option<int>
    decreases n,
{
    if n <= 0 {
        None
    } else if l[n - 1] < 255 {
        Some(n - 1)
    } else {
        last_below_max(l, n - 1)
    }
}

/// The next name after `next` that keeps its label count: a zero octet appended to the
/// first label when there is room, else the first label's last octet below 255 raised by
/// one (skipping the upper-case letters' start) and the label cut after it.
pub open spec fn succ_step(next: Seq<Seq<u8>>) -> Option<Seq<Seq<u8>>> {
    if name_wire(next).len() < 255 && next[0].len() < 63 {
        Some(next.update(0, next[0].push(0u8)))
    } else {
        match last_below_max(next[0], next[0].len() as int) {
            Some(at) => {
                let b = (next[0][at] + 1) as u8;
                let b = if b == 65 { 91u8 } else { b };
                Some(next.update(0, next[0].take(at).push(b)))
            },
            None => None,
        }
    }
}

pub open spec fn succ_search(ls: Seq<Seq<u8>>, start: int, stop: int) -> Option<Seq<Seq<u8>>>
    decreases stop - start,
{
    if start >= stop || start < 0 {
        None
    } else {
        match succ_step(ls.skip(start)) {
            Some(n) => Some(n),
            None => succ_search(ls, start + 1, stop),
        }
    }
}

pub open spec fn labels_result(ls: Seq<Seq<u8>>) -> Result<Seq<Seq<u8>>, Error> {
    if valid_labels(ls) {
        Ok(ls)
    } else {
        Err(Error::Invalid)
    }
}

/// The canonical successor of a name within its zone, for NSEC: a zero label prepended
/// when there is room, else the next name of the same depth, else the zone apex.
pub open spec fn spec_successor(name: Seq<Seq<u8>>, zone: Seq<Seq<u8>>) -> Result<Seq<Seq<u8>>, Error> {
    let ls = lower_labels(name);
    if canonical_wire(name).len() <= 253 {
        labels_result(seq![seq![0u8]] + ls)
    } else {
        let stop = if ls.len() > zone.len() { ls.len() - zone.len() } else { 0 };
        match succ_search(ls, 0, stop) {
            Some(n) => labels_result(n),
            None => Ok(zone),
        }
    }
}

fn lower_vec(l: &[u8]) -> (r: Vec<u8>)
    ensures
        r@ == lower_label(l@),
{
    let mut out: Vec<u8> = Vec::new();
    let mut i: usize = 0;
    while i < l.len()
        invariant
            i <= l@.len(),
            out@ == lower_label(l@.take(i as int)),
        decreases l@.len() - i,
    {
        let c = l[i];
        out.push(if 65 <= c && c <= 90 { c + 32 } else { c });
        i = i + 1;
        assert(out@ =~= lower_label(l@.take(i as int)));
    }
    assert(l@.take(l@.len() as int) =~= l@);
    out
}

fn copy_labels_from(ls: &Vec<Vec<u8>>, start: usize) -> (r: Vec<Vec<u8>>)
    requires
        start <= ls@.len(),
    ensures
        labels_view(r@) == labels_view(ls@).skip(start as int),
{
    let mut out: Vec<Vec<u8>> = Vec::new();
    let mut i = start;
    while i < ls.len()
        invariant
            start <= i <= ls@.len(),
            labels_view(out@) == labels_view(ls@).subrange(start as int, i as int),
        decreases ls@.len() - i,
    {
        let c = vstd::slice::slice_to_vec(ls[i].as_slice());
        let ghost before = out@;
        out.push(c);
        assert(labels_view(out@) =~= labels_view(before).push(c@));
        i = i + 1;
        assert(labels_view(out@) =~= labels_view(ls@).subrange(start as int, i as int));
    }
    out
}

proof fn lemma_labels_bytes_step(ls: Seq<Seq<u8>>, k: int)
    requires
        0 <= k < ls.len(),
    ensures
        labels_bytes(ls.take(k + 1)).len() == labels_bytes(ls.take(k)).len() + ls[k].len() + 1,
{
    assert(ls.take(k + 1).drop_last() =~= ls.take(k));
}

fn wire_length(ls: &Vec<Vec<u8>>) -> (r: usize)
    requires
        forall|i: int| 0 <= i < ls@.len() ==> (#[trigger] ls@[i])@.len() <= 255,
        ls@.len() <= 255,
    ensures
        r == name_wire(labels_view(ls@)).len(),
{
    let ghost v = labels_view(ls@);
    let mut total: usize = 1;
    let mut k: usize = 0;
    while k < ls.len()
        invariant
            v == labels_view(ls@),
            ls@.len() <= 255,
            forall|i: int| 0 <= i < ls@.len() ==> (#[trigger] ls@[i])@.len() <= 255,
            k <= ls@.len(),
            total == labels_bytes(v.take(k as int)).len() + 1,
            total <= 1 + 256 * k,
        decreases ls@.len() - k,
    {
        proof {
            lemma_labels_bytes_step(v, k as int);
        }
        total = total + ls[k].len() + 1;
        k = k + 1;
    }
    assert(v.take(ls@.len() as int) =~= v);
    total
}

fn name_of(labels: Vec<Vec<u8>>) -> (r: Result<Name, Error>)
    ensures
        match labels_result(labels_view(labels@)) {
            Ok(ls) => r matches Ok(n) && n@ == ls,
            Err(e) => r == Err::<Name, Error>(e),
        },
{
    match Name::from_labels(labels) {
        Ok(n) => Ok(n),
        Err(_) => Err(Error::Invalid),
    }
}

pub fn successor(name: &Name, zone: &Name) -> (r: Result<Name, Error>)
    ensures
        match spec_successor(name@, zone@) {
            Ok(ls) => r matches Ok(n) && n@ == ls,
            Err(e) => r == Err::<Name, Error>(e),
        },
{
    let src = name.labels();
    let canon_len = name.canonical().len();
    let mut labels: Vec<Vec<u8>> = Vec::new();
    let mut i: usize = 0;
    while i < src.len()
        invariant
            i <= src@.len(),
            labels_view(src@) == name@,
            labels_view(labels@) == lower_labels(name@).take(i as int),
        decreases src@.len() - i,
    {
        let l = lower_vec(src[i].as_slice());
        let ghost before = labels@;
        labels.push(l);
        assert(labels_view(labels@) =~= labels_view(before).push(l@));
        i = i + 1;
        assert(labels_view(labels@) =~= lower_labels(name@).take(i as int));
    }
    let ghost ls = lower_labels(name@);
    assert(ls.take(src@.len() as int) =~= ls);
    if canon_len <= 253 {
        let mut next: Vec<Vec<u8>> = Vec::new();
        let z: Vec<u8> = vec![0u8];
        assert(z@ =~= seq![0u8]);
        next.push(z);
        assert(labels_view(next@) =~= seq![seq![0u8]]);
        let ghost first = next@;
        let mut rest = labels;
        let ghost rv = rest@;
        next.append(&mut rest);
        assert(next@ =~= first + rv);
        assert(labels_view(next@) =~= labels_view(first) + labels_view(rv));
        return name_of(next);
    }
    name.check_valid();
    let zl = zone.label_count();
    let stop = if labels.len() > zl { labels.len() - zl } else { 0 };
    let mut start: usize = 0;
    while start < stop
        invariant
            labels_view(labels@) == ls,
            stop <= labels@.len(),
            start <= stop,
            valid_labels(name@),
            ls == lower_labels(name@),
            succ_search(ls, 0, stop as int) == succ_search(ls, start as int, stop as int),
            canonical_wire(name@).len() > 253,
            stop == if ls.len() > zone@.len() { ls.len() - zone@.len() } else { 0 },
        decreases stop - start,
    {
        let mut next = copy_labels_from(&labels, start);
        let ghost nv = labels_view(next@);
        assert(nv == ls.skip(start as int));
        proof {
            assert forall|k: int| 0 <= k < next@.len() implies (#[trigger] next@[k])@.len() <= 255 by {
                assert(nv[k] == ls[start + k]);
                assert(ls[start + k] == lower_label(name@[start + k]));
            }
            crate::dns::name::lemma_labels_bytes_len(name@);
        }
        assert(name_wire(name@).len() <= 255);
        let length = wire_length(&next);
        let first_len = next[0].len();
        if length < 255 && first_len < 63 {
            let mut f = vstd::slice::slice_to_vec(next[0].as_slice());
            f.push(0);
            next.set(0, f);
            assert(labels_view(next@) =~= nv.update(0, nv[0].push(0u8)));
            return name_of(next);
        }
        let mut at = first_len;
        let mut found = false;
        assert(nv.len() > 0);
        while at > 0
            invariant_except_break
                at <= first_len,
                nv.len() > 0,
                next@.len() == nv.len(),
                first_len == nv[0].len(),
                nv == labels_view(next@),
                !found,
                last_below_max(nv[0], first_len as int) == last_below_max(nv[0], at as int),
            ensures
                nv.len() > 0,
                next@.len() == nv.len(),
                first_len == nv[0].len(),
                nv == labels_view(next@),
                found ==> at < first_len && last_below_max(nv[0], first_len as int) == Some(at as int) && nv[0][at as int] < 255,
                !found ==> last_below_max(nv[0], first_len as int) is None,
            decreases at,
        {
            assert(nv[0] == next@[0]@);
            if next[0][at - 1] < 255 {
                at = at - 1;
                found = true;
                break;
            }
            at = at - 1;
        }
        if found {
            assert(nv[0] == next@[0]@);
            let v = next[0][at] + 1;
            let b = if v == 65 { 91u8 } else { v };
            let mut f = copy_range(next[0].as_slice(), 0, at);
            f.push(b);
            next.set(0, f);
            assert(labels_view(next@) =~= nv.update(0, nv[0].take(at as int).push(b)));
            return name_of(next);
        }
        start = start + 1;
    }
    Ok(zone.clone())
}

/// Bit `j` (most significant first) of an octet.
pub open spec fn has_bit(byte: u8, j: int) -> bool {
    byte & (0x80u8 >> (j as u8)) != 0
}

/// The types that one bitmap octet names, from bit `j` on.
pub open spec fn byte_kinds(base: int, byte: u8, j: int) -> Seq<u16>
    decreases 8 - j,
{
    if j < 0 || j >= 8 {
        Seq::empty()
    } else {
        (if has_bit(byte, j) { seq![(base + j) as u16] } else { Seq::<u16>::empty() }) + byte_kinds(base, byte, j + 1)
    }
}

/// The types of one window's octets, from octet `i` on.
pub open spec fn window_kinds(w: u8, bits: Seq<u8>, i: int) -> Seq<u16>
    decreases bits.len() - i,
{
    if i < 0 || i >= bits.len() {
        Seq::empty()
    } else {
        byte_kinds(w * 256 + i * 8, bits[i], 0) + window_kinds(w, bits, i + 1)
    }
}

/// The types that an NSEC type bitmap names, window by window, in order.
pub open spec fn bitmap_kinds(b: Seq<u8>, at: int) -> Seq<u16>
    decreases b.len() - at,
{
    if at < 0 || at + 1 >= b.len() {
        Seq::empty()
    } else {
        let n = b[at + 1] as int;
        if n == 0 || at + 2 + n > b.len() {
            Seq::empty()
        } else {
            window_kinds(b[at], b.subrange(at + 2, at + 2 + n), 0) + bitmap_kinds(b, at + 2 + n)
        }
    }
}

/// The types of a valid bitmap, in the order the bitmap lists them.
pub fn read_bitmap(b: &[u8]) -> (r: Result<Vec<u16>, Error>)
    ensures
        match r {
            Ok(v) => spec_bitmap_valid(b@) && v@ == bitmap_kinds(b@, 0),
            Err(e) => !spec_bitmap_valid(b@) && e == Error::Invalid,
        },
{
    if bitmap_valid(b).is_err() {
        return Err(Error::Invalid);
    }
    let ghost total = bitmap_kinds(b@, 0);
    let mut out: Vec<u16> = Vec::new();
    let mut at: usize = 0;
    let l = b.len();
    let ghost mut prev: Option<u8> = None;
    assert(out@ + bitmap_kinds(b@, 0) =~= total);
    loop
        invariant_except_break
            l == b@.len(),
            out@ + bitmap_kinds(b@, at as int) == total,
            at <= l,
            bitmap_walk(b@, at as int, prev),
        ensures
            out@ == total,
        decreases l - at,
    {
        if at >= l || l - at < 2 {
            assert(bitmap_kinds(b@, at as int) =~= Seq::<u16>::empty());
            assert(out@ + Seq::<u16>::empty() =~= out@);
            break;
        }
        let w = b[at];
        let n = b[at + 1] as usize;
        assert(n != 0 && n <= 32 && at + 2 + n <= l);
        let ghost bits = b@.subrange(at + 2, at + 2 + n);
        let ghost rest = bitmap_kinds(b@, at + 2 + n);
        let mut i: usize = 0;
        assert(out@ + window_kinds(w, bits, 0) + rest =~= total);
        while i < n
            invariant
                l == b@.len(),
                at + 2 + n <= l,
                bits == b@.subrange(at + 2, at + 2 + n),
                n == bits.len(),
                n <= 32,
                i <= n,
                w == b@[at as int],
                out@ + window_kinds(w, bits, i as int) + rest == total,
            decreases n - i,
        {
            let byte = b[at + 2 + i];
            assert(byte == bits[i as int]);
            let base: u16 = (w as u16) * 256 + (i as u16) * 8;
            let ghost after = window_kinds(w, bits, i + 1);
            assert(out@ + byte_kinds(base as int, byte, 0) + after + rest =~= total);
            let mut j: u16 = 0;
            while j < 8
                invariant
                    j <= 8,
                    base as int == w * 256 + i * 8,
                    base as int + 8 <= 65536,
                    out@ + byte_kinds(base as int, byte, j as int) + after + rest == total,
                decreases 8 - j,
            {
                let ghost before = out@;
                if byte & (0x80u8 >> (j as u8)) != 0 {
                    out.push(base + j);
                    assert(before + byte_kinds(base as int, byte, j as int) =~= out@ + byte_kinds(base as int, byte, j + 1));
                } else {
                    assert(before + byte_kinds(base as int, byte, j as int) =~= out@ + byte_kinds(base as int, byte, j + 1));
                }
                assert(out@ + byte_kinds(base as int, byte, j + 1) + after + rest =~= total);
                j = j + 1;
            }
            assert(byte_kinds(base as int, byte, 8) =~= Seq::<u16>::empty());
            assert(out@ + after + rest =~= total);
            i = i + 1;
        }
        assert(window_kinds(w, bits, n as int) =~= Seq::<u16>::empty());
        assert(out@ + rest =~= total);
        at = at + 2 + n;
        proof {
            prev = Some(w);
        }
    }
    Ok(out)
}

/// Adds a type to a set held as a duplicate-free sequence; at most 1024 types.
pub open spec fn add_type(types: Seq<u16>, k: u16) -> Option<Seq<u16>> {
    if types.contains(k) {
        Some(types)
    } else if types.len() >= 1024 {
        None
    } else {
        Some(types.push(k))
    }
}

pub fn insert_type(types: &mut Vec<u16>, kind: u16) -> (r: Result<(), Error>)
    ensures
        match add_type(old(types)@, kind) {
            Some(t) => r is Ok && final(types)@ == t,
            None => r == Err::<(), Error>(Error::Invalid) && final(types)@ == old(types)@,
        },
{
    let mut i: usize = 0;
    while i < types.len()
        invariant
            i <= types@.len(),
            types@ == old(types)@,
            forall|j: int| 0 <= j < i ==> types@[j] != kind,
        decreases types@.len() - i,
    {
        if types[i] == kind {
            assert(types@.contains(kind));
            return Ok(());
        }
        i = i + 1;
    }
    assert(!types@.contains(kind));
    if types.len() >= 1024 {
        return Err(Error::Invalid);
    }
    types.push(kind);
    Ok(())
}

/// Octet `i` of the type bitmap: the bits of the types that fall in it.
pub open spec fn byte_or(types: Seq<u16>, i: int) -> u8
    decreases types.len(),
{
    if types.len() == 0 {
        0
    } else {
        let k = types.last();
        let prev = byte_or(types.drop_last(), i);
        if k / 8 == i {
            prev | (0x80u8 >> ((k % 8) as u8))
        } else {
            prev
        }
    }
}

/// One past the last non-zero octet among the first `n` of window `w`, or 0.
pub open spec fn last_nonzero(types: Seq<u16>, w: int, n: int) -> int
    decreases n,
{
    if n <= 0 {
        0
    } else if byte_or(types, w * 32 + n - 1) != 0 {
        n
    } else {
        last_nonzero(types, w, n - 1)
    }
}

/// Window `w` of the bitmap: absent when empty, else its number, length and octets.
pub open spec fn window_enc(types: Seq<u16>, w: int) -> Seq<u8> {
    let len = last_nonzero(types, w, 32);
    if len == 0 {
        Seq::empty()
    } else {
        seq![w as u8, len as u8] + Seq::new(len as nat, |j: int| byte_or(types, w * 32 + j))
    }
}

pub open spec fn bitmap_upto(types: Seq<u16>, w: int) -> Seq<u8>
    decreases w,
{
    if w <= 0 {
        Seq::empty()
    } else {
        bitmap_upto(types, w - 1) + window_enc(types, w - 1)
    }
}

/// The NSEC type bitmap of a set of types (RFC 4034 section 4.1.2).
pub open spec fn spec_type_bitmap(types: Seq<u16>) -> Seq<u8> {
    bitmap_upto(types, 256)
}

proof fn lemma_last_nonzero_range(types: Seq<u16>, w: int, n: int)
    requires
        0 <= n,
    ensures
        0 <= last_nonzero(types, w, n) <= n,
        last_nonzero(types, w, n) > 0 ==> byte_or(types, w * 32 + last_nonzero(types, w, n) - 1) != 0,
    decreases n,
{
    if n > 0 && byte_or(types, w * 32 + n - 1) == 0 {
        lemma_last_nonzero_range(types, w, n - 1);
    }
}

pub fn type_bitmap(types: &Vec<u16>) -> (r: Vec<u8>)
    ensures
        r@ == spec_type_bitmap(types@),
{
    let mut bits: Vec<u8> = vec![0u8; 8192];
    let mut t: usize = 0;
    assert forall|i: int| 0 <= i < 8192 implies #[trigger] bits@[i] == byte_or(types@.take(0), i) by {
        assert(types@.take(0).len() == 0);
    }
    while t < types.len()
        invariant
            t <= types@.len(),
            bits@.len() == 8192,
            forall|i: int| 0 <= i < 8192 ==> #[trigger] bits@[i] == byte_or(types@.take(t as int), i),
        decreases types@.len() - t,
    {
        let k = types[t];
        let idx = (k / 8) as usize;
        let m: u8 = 0x80u8 >> ((k % 8) as u8);
        let v = bits[idx] | m;
        bits.set(idx, v);
        proof {
            let s = types@.take(t + 1);
            assert(s.drop_last() =~= types@.take(t as int));
            assert(s.last() == k);
        }
        t = t + 1;
    }
    assert(types@.take(types@.len() as int) =~= types@);
    let mut out: Vec<u8> = Vec::new();
    let mut w: usize = 0;
    while w < 256
        invariant
            w <= 256,
            bits@.len() == 8192,
            forall|i: int| 0 <= i < 8192 ==> #[trigger] bits@[i] == byte_or(types@, i),
            out@ == bitmap_upto(types@, w as int),
        decreases 256 - w,
    {
        let mut len: usize = 32;
        while len > 0 && bits[w * 32 + len - 1] == 0
            invariant
                len <= 32,
                w < 256,
                bits@.len() == 8192,
                forall|i: int| 0 <= i < 8192 ==> #[trigger] bits@[i] == byte_or(types@, i),
                last_nonzero(types@, w as int, 32) == last_nonzero(types@, w as int, len as int),
            decreases len,
        {
            len = len - 1;
        }
        proof {
            if len > 0 {
                assert(bits@[w * 32 + len - 1] != 0);
            }
            assert(last_nonzero(types@, w as int, len as int) == len);
        }
        let ghost before = out@;
        if len > 0 {
            out.push(w as u8);
            out.push(len as u8);
            let mut j: usize = 0;
            while j < len
                invariant
                    j <= len <= 32,
                    w < 256,
                    bits@.len() == 8192,
                    forall|i: int| 0 <= i < 8192 ==> #[trigger] bits@[i] == byte_or(types@, i),
                    out@ == before + seq![w as u8, len as u8] + Seq::new(j as nat, |x: int| byte_or(types@, w * 32 + x)),
                decreases len - j,
            {
                out.push(bits[w * 32 + j]);
                j = j + 1;
                assert(out@ =~= before + seq![w as u8, len as u8] + Seq::new(j as nat, |x: int| byte_or(types@, w * 32 + x)));
            }
        }
        assert(out@ =~= bitmap_upto(types@, w as int) + window_enc(types@, w as int));
        w = w + 1;
    }
    out
}

/// Types that a denial may list: never meta or DNSSEC-only types, NS and SOA only at the apex.
pub open spec fn accepted(kind: u16, apex: bool) -> bool {
    &&& kind != 0
    &&& !(kind == 24 || kind == 41 || kind == 43 || kind == 46 || kind == 47 || kind == 50 || (249 <= kind <= 255))
    &&& (apex || !(kind == 2 || kind == 6))
}

/// Adds the accepted kinds, in order.
pub open spec fn add_all(types: Seq<u16>, kinds: Seq<u16>, apex: bool) -> Option<Seq<u16>>
    decreases kinds.len(),
{
    if kinds.len() == 0 {
        Some(types)
    } else {
        let next = if accepted(kinds[0], apex) { add_type(types, kinds[0]) } else { Some(types) };
        match next {
            None => None,
            Some(t) => add_all(t, kinds.drop_first(), apex),
        }
    }
}

/// What the multicast answers for the owner have shown so far.
pub struct Collected {
    pub types: Seq<u16>,
    pub work: int,
    pub seen_a: bool,
    pub seen_aaaa: bool,
    pub reach_a: bool,
    pub reach_aaaa: bool,
}

pub open spec fn collect_none() -> Collected {
    Collected { types: Seq::empty(), work: 0, seen_a: false, seen_aaaa: false, reach_a: false, reach_aaaa: false }
}

/// One record's contribution: its type, or the types of its NSEC bitmap, at a bounded cost.
pub open spec fn collect_step(c: Collected, r: RecordV, owner: Seq<Seq<u8>>, apex: bool, reach: Reachability) -> Option<
    Collected,
> {
    if !(canonical_wire(r.name) == canonical_wire(owner) && r.class & 0x7fffu16 == 1 && r.ttl > 0) {
        Some(c)
    } else {
        let work = c.work + 1;
        let added = match r.data {
            RdataV::Nsec { bitmap, .. } => if work + bitmap.len() > 262144 || !spec_bitmap_valid(bitmap) {
                None
            } else {
                match add_all(c.types, bitmap_kinds(bitmap, 0), apex) {
                    None => None,
                    Some(t) => Some((t, work + bitmap.len())),
                }
            },
            _ => match (if accepted(r.kind, apex) { add_type(c.types, r.kind) } else { Some(c.types) }) {
                None => None,
                Some(t) => Some((t, work)),
            },
        };
        match added {
            None => None,
            Some((t, w)) => Some(
                Collected {
                    types: t,
                    work: w,
                    seen_a: c.seen_a || r.kind == 1,
                    seen_aaaa: c.seen_aaaa || r.kind == 28,
                    reach_a: c.reach_a || (r.kind == 1 && spec_dp_usable(r, reach)),
                    reach_aaaa: c.reach_aaaa || (r.kind == 28 && spec_dp_usable(r, reach)),
                },
            ),
        }
    }
}

pub open spec fn collect(rs: Seq<RecordV>, owner: Seq<Seq<u8>>, apex: bool, reach: Reachability) -> Option<Collected>
    decreases rs.len(),
{
    if rs.len() == 0 {
        Some(collect_none())
    } else {
        match collect(rs.drop_last(), owner, apex, reach) {
            None => None,
            Some(c) => collect_step(c, rs.last(), owner, apex, reach),
        }
    }
}

pub open spec fn ne_kind(k: u16) -> spec_fn(u16) -> bool {
    |x: u16| x != k
}

pub open spec fn remove_kind(types: Seq<u16>, k: u16, drop: bool) -> Seq<u16> {
    if drop {
        types.filter(ne_kind(k))
    } else {
        types
    }
}

/// The prefix of NSEC3 RDATA: SHA-1, no flags, no iterations, no salt, a twenty-octet hash.
pub open spec fn nsec3_head() -> Seq<u8> {
    seq![1u8, 0u8, 0u8, 0u8, 0u8, 20u8]
}

/// The denial for a name the multicast answers do not cover: NSEC naming the owner's
/// types, or NSEC3 when NSEC3 was asked for. Address types that the querier cannot reach
/// are left out.
pub open spec fn spec_denial(z: ZoneV, q: TranslatedV, rs: Seq<RecordV>, reach: Reachability) -> Result<RecordV, Error> {
    if rs.len() > 4096 || spec_scope(z, q.original.name) != Some(q.scope) {
        Err(Error::Invalid)
    } else {
        let domain = spec_domain(z, q.scope)->0;
        let apex = canonical_wire(q.original.name) == canonical_wire(domain);
        match collect(rs, q.multicast.name, apex, reach) {
            None => Err(Error::Invalid),
            Some(c) => {
                let t = remove_kind(c.types, 1, c.seen_a && !c.reach_a);
                let t = remove_kind(t, 28, c.seen_aaaa && !c.reach_aaaa);
                if q.original.kind == 50 {
                    let hash = sha1_digest(canonical_wire(q.original.name));
                    match labels_result(seq![spec_base32hex(hash)] + domain) {
                        Err(e) => Err(e),
                        Ok(name) => Ok(
                            RecordV {
                                name,
                                kind: 50,
                                class: 1,
                                ttl: 10,
                                data: RdataV::Bytes(nsec3_head() + spec_increment(hash) + spec_type_bitmap(t)),
                            },
                        ),
                    }
                } else {
                    match add_type(t, 47) {
                        None => Err(Error::Invalid),
                        Some(t) => match spec_successor(q.original.name, domain) {
                            Err(e) => Err(e),
                            Ok(next) => Ok(
                                RecordV {
                                    name: q.original.name,
                                    kind: 47,
                                    class: 1,
                                    ttl: 10,
                                    data: RdataV::Nsec { next, bitmap: spec_type_bitmap(t) },
                                },
                            ),
                        },
                    }
                }
            },
        }
    }
}

fn add_kinds(types: &mut Vec<u16>, kinds: &Vec<u16>, apex: bool) -> (r: Result<(), Error>)
    ensures
        match add_all(old(types)@, kinds@, apex) {
            Some(t) => r is Ok && final(types)@ == t,
            None => r == Err::<(), Error>(Error::Invalid),
        },
{
    let mut i: usize = 0;
    assert(kinds@.skip(0) =~= kinds@);
    while i < kinds.len()
        invariant
            i <= kinds@.len(),
            add_all(old(types)@, kinds@, apex) == add_all(types@, kinds@.skip(i as int), apex),
        decreases kinds@.len() - i,
    {
        let k = kinds[i];
        assert(kinds@.skip(i as int)[0] == k);
        assert(kinds@.skip(i as int).drop_first() =~= kinds@.skip(i + 1));
        if k != 0 && !(k == 24 || k == 41 || k == 43 || k == 46 || k == 47 || k == 50 || (249 <= k && k <= 255))
            && (apex || !(k == 2 || k == 6)) {
            match insert_type(types, k) {
                Ok(()) => {},
                Err(e) => return Err(e),
            }
        }
        i = i + 1;
    }
    Ok(())
}

fn without(types: &Vec<u16>, k: u16) -> (r: Vec<u16>)
    ensures
        r@ == types@.filter(ne_kind(k)),
{
    let mut out: Vec<u16> = Vec::new();
    let mut i: usize = 0;
    proof {
        assert(types@.take(0).filter(ne_kind(k)) =~= Seq::<u16>::empty()) by {
            reveal(Seq::filter);
        }
    }
    while i < types.len()
        invariant
            i <= types@.len(),
            out@ == types@.take(i as int).filter(ne_kind(k)),
        decreases types@.len() - i,
    {
        proof {
            let s = types@.take(i + 1);
            assert(s.drop_last() =~= types@.take(i as int));
            assert(s.last() == types@[i as int]);
            assert(s.filter(ne_kind(k)) == if ne_kind(k)(s.last()) {
                s.drop_last().filter(ne_kind(k)).push(s.last())
            } else {
                s.drop_last().filter(ne_kind(k))
            }) by {
                reveal(Seq::filter);
            }
        }
        if types[i] != k {
            out.push(types[i]);
        }
        i = i + 1;
    }
    assert(types@.take(types@.len() as int) =~= types@);
    out
}

proof fn lemma_collect_none(rs: Seq<RecordV>, owner: Seq<Seq<u8>>, apex: bool, reach: Reachability, j: int)
    requires
        0 <= j <= rs.len(),
        collect(rs.take(j), owner, apex, reach) is None,
    ensures
        collect(rs, owner, apex, reach) is None,
    decreases rs.len() - j,
{
    if j < rs.len() {
        assert(rs.take(j + 1).drop_last() =~= rs.take(j));
        lemma_collect_none(rs, owner, apex, reach, j + 1);
    } else {
        assert(rs.take(j) =~= rs);
    }
}

fn prepend_label(first: Vec<u8>, rest: &Name) -> (r: Vec<Vec<u8>>)
    ensures
        labels_view(r@) == seq![first@] + rest@,
{
    let src = rest.labels();
    let mut out: Vec<Vec<u8>> = Vec::new();
    let ghost f = first@;
    out.push(first);
    let mut i: usize = 0;
    while i < src.len()
        invariant
            i <= src@.len(),
            labels_view(src@) == rest@,
            labels_view(out@) == seq![f] + rest@.take(i as int),
        decreases src@.len() - i,
    {
        let c = vstd::slice::slice_to_vec(src[i].as_slice());
        let ghost before = out@;
        out.push(c);
        assert(labels_view(out@) =~= labels_view(before).push(c@));
        i = i + 1;
        assert(labels_view(out@) =~= seq![f] + rest@.take(i as int));
    }
    assert(rest@.take(src@.len() as int) =~= rest@);
    out
}

impl Zone {
    /// The denial for the owner of a question that the multicast answers do not cover.
    #[verifier::rlimit(50)]
    pub fn denial(&self, q: &TranslatedQuestion, records: &[Record], reach: &Reachability) -> (r: Result<Record, Error>)
        ensures
            match r {
                Ok(rec) => spec_denial(self@, q@, records_view(records@), *reach) == Ok::<RecordV, Error>(rec@),
                Err(e) => spec_denial(self@, q@, records_view(records@), *reach) == Err::<RecordV, Error>(e),
            },
    {
        let ghost rv = records_view(records@);
        if records.len() > 4096 {
            return Err(Error::Invalid);
        }
        match self.scope(&q.original.name) {
            Some(s) => {
                if s != q.scope {
                    return Err(Error::Invalid);
                }
            },
            None => return Err(Error::Invalid),
        }
        proof {
            use_type_invariant(self);
            lemma_scope_has_domain(self@, q.original.name@);
        }
        let domain = match self.domain(q.scope) {
            Ok(d) => d,
            Err(e) => return Err(e),
        };
        let apex = q.original.name.eq(domain);
        let ghost owner = q.multicast.name@;
        let mut types: Vec<u16> = Vec::new();
        let mut work: usize = 0;
        let mut seen_a = false;
        let mut seen_aaaa = false;
        let mut reach_a = false;
        let mut reach_aaaa = false;
        let mut i: usize = 0;
        assert(rv.take(0) =~= Seq::<RecordV>::empty());
        while i < records.len()
            invariant
                rv == records_view(records@),
                records@.len() <= 4096,
                i <= records@.len(),
                work <= 262144 + i,
                owner == q.multicast.name@,
                spec_scope(self@, q@.original.name) == Some(q.scope),
                spec_domain(self@, q.scope) == Some(domain@),
                apex == (canonical_wire(q@.original.name) == canonical_wire(domain@)),
                collect(rv.take(i as int), owner, apex, *reach) == Some(
                    Collected {
                        types: types@,
                        work: work as int,
                        seen_a,
                        seen_aaaa,
                        reach_a,
                        reach_aaaa,
                    },
                ),
            decreases records@.len() - i,
        {
            let r = &records[i];
            proof {
                assert(rv.take(i + 1).drop_last() =~= rv.take(i as int));
                assert(rv.take(i + 1).last() == r@);
            }
            if r.name.eq(&q.multicast.name) && r.class & 0x7fff == 1 && r.ttl > 0 {
                work = work + 1;
                match &r.data {
                    Rdata::Nsec { bitmap, .. } => {
                        if bitmap.len() > 262144 || work + bitmap.len() > 262144 {
                            proof {
                                lemma_collect_none(rv, owner, apex, *reach, i + 1);
                            }
                            return Err(Error::Invalid);
                        }
                        let kinds = match read_bitmap(bitmap.as_slice()) {
                            Ok(k) => k,
                            Err(e) => {
                                proof {
                                    lemma_collect_none(rv, owner, apex, *reach, i + 1);
                                }
                                return Err(e);
                            },
                        };
                        match add_kinds(&mut types, &kinds, apex) {
                            Ok(()) => {},
                            Err(e) => {
                                proof {
                                    lemma_collect_none(rv, owner, apex, *reach, i + 1);
                                }
                                return Err(e);
                            },
                        }
                        work = work + bitmap.len();
                    },
                    _ => {
                        let k = r.kind;
                        if k != 0 && !(k == 24 || k == 41 || k == 43 || k == 46 || k == 47 || k == 50 || (249 <= k
                            && k <= 255)) && (apex || !(k == 2 || k == 6)) {
                            match insert_type(&mut types, k) {
                                Ok(()) => {},
                                Err(e) => {
                                    proof {
                                        lemma_collect_none(rv, owner, apex, *reach, i + 1);
                                    }
                                    return Err(e);
                                },
                            }
                        }
                    },
                }
                if r.kind == 1 {
                    seen_a = true;
                    if usable(r, reach) {
                        reach_a = true;
                    }
                }
                if r.kind == 28 {
                    seen_aaaa = true;
                    if usable(r, reach) {
                        reach_aaaa = true;
                    }
                }
            }
            i = i + 1;
        }
        assert(rv.take(records@.len() as int) =~= rv);
        let t1 = if seen_a && !reach_a { without(&types, 1) } else { types };
        let t2 = if seen_aaaa && !reach_aaaa { without(&t1, 28) } else { t1 };
        if q.original.kind == 50 {
            let hash = sha1(q.original.name.canonical());
            let label = base32hex(hash.as_slice());
            let labels = prepend_label(label, domain);
            let name = match name_of(labels) {
                Ok(n) => n,
                Err(e) => return Err(e),
            };
            let mut next = hash;
            increment(&mut next);
            let bitmap = type_bitmap(&t2);
            let mut data: Vec<u8> = vec![1u8, 0u8, 0u8, 0u8, 0u8, 20u8];
            assert(data@ =~= nsec3_head());
            push_bytes(&mut data, next.as_slice());
            push_bytes(&mut data, bitmap.as_slice());
            Ok(Record { name, kind: 50, class: 1, ttl: 10, data: Rdata::Bytes(data) })
        } else {
            let mut t3 = t2;
            match insert_type(&mut t3, 47) {
                Ok(()) => {},
                Err(e) => return Err(e),
            }
            let bitmap = type_bitmap(&t3);
            let next = match successor(&q.original.name, domain) {
                Ok(n) => n,
                Err(e) => return Err(e),
            };
            Ok(Record { name: q.original.name.clone(), kind: 47, class: 1, ttl: 10, data: Rdata::Nsec { next, bitmap } })
        }
    }
}

pub open spec fn lit_dns_llq() -> Seq<u8> { seq![95u8, 100u8, 110u8, 115u8, 45u8, 108u8, 108u8, 113u8] }
pub open spec fn lit_udp() -> Seq<u8> { seq![95u8, 117u8, 100u8, 112u8] }
pub open spec fn lit_tcp() -> Seq<u8> { seq![95u8, 116u8, 99u8, 112u8] }
pub open spec fn lit_dns_llq_tls() -> Seq<u8> { lit_dns_llq() + seq![45u8, 116u8, 108u8, 115u8] }
pub open spec fn lit_dns_push_tls() -> Seq<u8> {
    seq![95u8, 100u8, 110u8, 115u8, 45u8, 112u8, 117u8, 115u8, 104u8, 45u8, 116u8, 108u8, 115u8]
}
pub open spec fn lit_dns_update() -> Seq<u8> { seq![95u8, 100u8, 110u8, 115u8, 45u8, 117u8, 112u8, 100u8, 97u8, 116u8, 101u8] }
pub open spec fn lit_dns_update_tls() -> Seq<u8> { lit_dns_update() + seq![45u8, 116u8, 108u8, 115u8] }
pub open spec fn lit_dns_sd() -> Seq<u8> { seq![95u8, 100u8, 110u8, 115u8, 45u8, 115u8, 100u8] }

pub open spec fn ci(a: Seq<u8>, b: Seq<u8>) -> bool {
    lower_label(a) == lower_label(b)
}

/// The service names that DNS Push, LLQ and UPDATE discovery ask for (RFC 8766 section 6).
pub open spec fn reserved_pair(a: Seq<u8>, b: Seq<u8>) -> bool {
    ||| ci(a, lit_dns_llq()) && ci(b, lit_udp())
    ||| ci(a, lit_dns_llq()) && ci(b, lit_tcp())
    ||| ci(a, lit_dns_llq_tls()) && ci(b, lit_tcp())
    ||| ci(a, lit_dns_push_tls()) && ci(b, lit_tcp())
    ||| ci(a, lit_dns_update()) && ci(b, lit_udp())
    ||| ci(a, lit_dns_update()) && ci(b, lit_tcp())
    ||| ci(a, lit_dns_update_tls()) && ci(b, lit_tcp())
}

/// The browsing-domain enumeration labels (RFC 6763 section 11).
pub open spec fn enumeration_label(a: Seq<u8>) -> bool {
    ci(a, seq![98u8]) || ci(a, seq![100u8, 98u8]) || ci(a, seq![108u8, 98u8]) || ci(a, seq![114u8]) || ci(
        a,
        seq![100u8, 114u8],
    )
}

pub open spec fn ns_records(z: ZoneV, d: Seq<Seq<u8>>) -> Seq<RecordV> {
    Seq::new(
        z.nameservers.len(),
        |j: int| RecordV { name: d, kind: 2, class: 1, ttl: 10, data: RdataV::Name(z.nameservers[j]) },
    )
}

/// The apex records the proxy itself answers with for a query type.
pub open spec fn apex_answers(z: ZoneV, d: Seq<Seq<u8>>, kind: u16, apex: bool) -> Seq<RecordV> {
    (if apex && (kind == 2 || kind == 255) { ns_records(z, d) } else { Seq::empty() }) + (if apex && (kind == 6
        || kind == 255) {
        seq![spec_soa(z, d)]
    } else {
        Seq::empty()
    })
}

pub open spec fn reply(q: QuestionV, answers: Seq<RecordV>, authority: Seq<RecordV>) -> MessageV {
    MessageV {
        id: 0,
        flags: 0x8400,
        questions: seq![q],
        answers,
        authority,
        additional: Seq::empty(),
        original: Seq::empty(),
        spans: Seq::empty(),
    }
}

pub open spec fn rename_all(rs: Seq<RecordV>, name: Seq<Seq<u8>>) -> Seq<RecordV> {
    rs.map_values(|r: RecordV| RecordV { name, ..r })
}

pub open spec fn no_reach() -> Reachability {
    Reachability {
        on_link: false,
        ipv4_link_local: false,
        different_private_realm: false,
        different_ula_realm: false,
        include_unusable: false,
    }
}

/// What the proxy answers itself for a question: the apex NS and SOA records, a denial
/// of the apex's own types, or an SOA that shows the name is delegated to the proxy.
pub open spec fn spec_metadata(z: ZoneV, q: QuestionV) -> Result<Option<MessageV>, Error> {
    match spec_question(z, q) {
        Err(e) => Err(e),
        Ok(None) => Ok(None),
        Ok(Some(m)) => {
            let d = spec_domain(z, m.scope)->0;
            let apex = canonical_wire(q.name) == canonical_wire(d);
            let rel = q.name.take(q.name.len() - d.len());
            let reserved = rel.len() == 2 && reserved_pair(rel[0], rel[1]);
            let enumeration = m.scope is Reverse && rel.len() == 3 && enumeration_label(rel[0]) && ci(rel[1], lit_dns_sd())
                && ci(rel[2], lit_udp());
            if !apex && !(q.kind == 2 || q.kind == 6 || q.kind == 43) && !reserved && !enumeration {
                Ok(None)
            } else if apex && (q.kind == 47 || q.kind == 50) {
                let types = rename_all(apex_answers(z, d, 255, true), m.multicast.name);
                match spec_denial(z, m, types, no_reach()) {
                    Err(e) => Err(e),
                    Ok(r) => Ok(Some(reply(q, seq![r], Seq::empty()))),
                }
            } else {
                let answers = apex_answers(z, d, q.kind, apex);
                Ok(Some(reply(q, answers, if answers.len() == 0 { seq![spec_soa(z, d)] } else { Seq::empty() })))
            }
        },
    }
}

fn lit(v: Vec<u8>) -> (r: Vec<u8>)
    ensures
        r@ == v@,
{
    v
}

fn reserved_labels(a: &[u8], b: &[u8]) -> (r: bool)
    ensures
        r == reserved_pair(a@, b@),
{
    let llq = lit(vec![95u8, 100, 110, 115, 45, 108, 108, 113]);
    let udp = lit(vec![95u8, 117, 100, 112]);
    let tcp = lit(vec![95u8, 116, 99, 112]);
    let llq_tls = lit(vec![95u8, 100, 110, 115, 45, 108, 108, 113, 45, 116, 108, 115]);
    let push_tls = lit(vec![95u8, 100, 110, 115, 45, 112, 117, 115, 104, 45, 116, 108, 115]);
    let update = lit(vec![95u8, 100, 110, 115, 45, 117, 112, 100, 97, 116, 101]);
    let update_tls = lit(vec![95u8, 100, 110, 115, 45, 117, 112, 100, 97, 116, 101, 45, 116, 108, 115]);
    assert(llq@ =~= lit_dns_llq());
    assert(udp@ =~= lit_udp());
    assert(tcp@ =~= lit_tcp());
    assert(llq_tls@ =~= lit_dns_llq_tls());
    assert(push_tls@ =~= lit_dns_push_tls());
    assert(update@ =~= lit_dns_update());
    assert(update_tls@ =~= lit_dns_update_tls());
    let b_udp = label_eq_ci(b, &udp);
    let b_tcp = label_eq_ci(b, &tcp);
    (label_eq_ci(a, &llq) && b_udp) || (label_eq_ci(a, &llq) && b_tcp) || (label_eq_ci(a, &llq_tls) && b_tcp) || (
    label_eq_ci(a, &push_tls) && b_tcp) || (label_eq_ci(a, &update) && b_udp) || (label_eq_ci(a, &update) && b_tcp)
        || (label_eq_ci(a, &update_tls) && b_tcp)
}

fn enumeration_labels(a: &[u8], b: &[u8], c: &[u8]) -> (r: bool)
    ensures
        r == (enumeration_label(a@) && ci(b@, lit_dns_sd()) && ci(c@, lit_udp())),
{
    let l1 = lit(vec![98u8]);
    let l2 = lit(vec![100u8, 98]);
    let l3 = lit(vec![108u8, 98]);
    let l4 = lit(vec![114u8]);
    let l5 = lit(vec![100u8, 114]);
    let sd = lit(vec![95u8, 100, 110, 115, 45, 115, 100]);
    let udp = lit(vec![95u8, 117, 100, 112]);
    assert(l1@ =~= seq![98u8]);
    assert(l2@ =~= seq![100u8, 98u8]);
    assert(l3@ =~= seq![108u8, 98u8]);
    assert(l4@ =~= seq![114u8]);
    assert(l5@ =~= seq![100u8, 114u8]);
    assert(sd@ =~= lit_dns_sd());
    assert(udp@ =~= lit_udp());
    (label_eq_ci(a, &l1) || label_eq_ci(a, &l2) || label_eq_ci(a, &l3) || label_eq_ci(a, &l4) || label_eq_ci(a, &l5))
        && label_eq_ci(b, &sd) && label_eq_ci(c, &udp)
}

impl Zone {
    fn apex_records(&self, d: &Name, kind: u16, apex: bool) -> (r: Vec<Record>)
        requires
            zone_ok(self@),
        ensures
            records_view(r@) == apex_answers(self@, d@, kind, apex),
    {
        let mut out: Vec<Record> = Vec::new();
        if apex && (kind == 2 || kind == 255) {
            let mut j: usize = 0;
            while j < self.nameservers.len()
                invariant
                    j <= self.nameservers@.len(),
                    names_view(self.nameservers@) == self@.nameservers,
                    records_view(out@) == ns_records(self@, d@).take(j as int),
                decreases self.nameservers@.len() - j,
            {
                let rec = Record {
                    name: d.clone(),
                    kind: 2,
                    class: 1,
                    ttl: 10,
                    data: Rdata::Name(self.nameservers[j].clone()),
                };
                let ghost before = out@;
                out.push(rec);
                assert(records_view(out@) =~= records_view(before).push(rec@));
                j = j + 1;
                assert(records_view(out@) =~= ns_records(self@, d@).take(j as int));
            }
            assert(ns_records(self@, d@).take(self.nameservers@.len() as int) =~= ns_records(self@, d@));
        }
        let ghost first = records_view(out@);
        if apex && (kind == 6 || kind == 255) {
            let rec = Record {
                name: d.clone(),
                kind: 6,
                class: 1,
                ttl: 10,
                data: Rdata::Soa {
                    mname: self.nameservers[0].clone(),
                    rname: self.mailbox.clone(),
                    serial: 0,
                    refresh: 7200,
                    retry: 3600,
                    expire: 86400,
                    minimum: 10,
                },
            };
            assert(self@.nameservers[0] == self.nameservers@[0]@);
            out.push(rec);
            assert(records_view(out@) =~= first + seq![spec_soa(self@, d@)]);
        } else {
            assert(records_view(out@) =~= first + Seq::<RecordV>::empty());
        }
        out
    }

    /// Answers the questions that the proxy answers itself; `None` for those it forwards.
    #[verifier::rlimit(50)]
    pub fn metadata(&self, q: &Question) -> (r: Result<Option<Message>, Error>)
        ensures
            match r {
                Ok(None) => spec_metadata(self@, q@) == Ok::<Option<MessageV>, Error>(None),
                Ok(Some(m)) => spec_metadata(self@, q@) == Ok::<Option<MessageV>, Error>(Some(m@)),
                Err(e) => spec_metadata(self@, q@) == Err::<Option<MessageV>, Error>(e),
            },
    {
        proof {
            use_type_invariant(self);
        }
        let mapped = match self.question(q) {
            Err(e) => return Err(e),
            Ok(None) => return Ok(None),
            Ok(Some(m)) => m,
        };
        proof {
            lemma_scope_has_domain(self@, q.name@);
        }
        let d = match self.domain(mapped.scope) {
            Ok(d) => d,
            Err(e) => return Err(e),
        };
        let apex = q.name.eq(d);
        let ls = q.name.labels();
        let n = ls.len() - d.label_count();
        let reserved = n == 2 && reserved_labels(ls[0].as_slice(), ls[1].as_slice());
        let enumeration = match mapped.scope {
            Scope::Reverse(_) => true,
            _ => false,
        } && n == 3 && enumeration_labels(ls[0].as_slice(), ls[1].as_slice(), ls[2].as_slice());
        proof {
            let rel = q.name@.take(q.name@.len() - d@.len());
            if n >= 2 {
                assert(rel[0] == ls@[0]@ && rel[1] == ls@[1]@);
            }
            if n == 3 {
                assert(rel[2] == ls@[2]@);
            }
        }
        if !apex && !(q.kind == 2 || q.kind == 6 || q.kind == 43) && !reserved && !enumeration {
            return Ok(None);
        }
        let mut m = Message::new(0, 0x8400);
        m.questions.push(q.clone());
        if apex && (q.kind == 47 || q.kind == 50) {
            let all = self.apex_records(d, 255, true);
            let mut types: Vec<Record> = Vec::new();
            let mut i: usize = 0;
            while i < all.len()
                invariant
                    i <= all@.len(),
                    records_view(types@) == rename_all(records_view(all@), mapped@.multicast.name).take(i as int),
                decreases all@.len() - i,
            {
                let mut rec = all[i].clone();
                rec.name = mapped.multicast.name.clone();
                let ghost before = types@;
                types.push(rec);
                assert(records_view(types@) =~= records_view(before).push(rec@));
                i = i + 1;
                assert(records_view(types@) =~= rename_all(records_view(all@), mapped@.multicast.name).take(i as int));
            }
            assert(rename_all(records_view(all@), mapped@.multicast.name).take(all@.len() as int) =~= rename_all(
                records_view(all@),
                mapped@.multicast.name,
            ));
            let none = Reachability {
                on_link: false,
                ipv4_link_local: false,
                different_private_realm: false,
                different_ula_realm: false,
                include_unusable: false,
            };
            let rec = match self.denial(&mapped, types.as_slice(), &none) {
                Ok(r) => r,
                Err(e) => return Err(e),
            };
            m.answers.push(rec);
            assert(m@.questions =~= seq![q@]);
            assert(m@.answers =~= seq![rec@]);
            assert(m@.authority =~= Seq::<RecordV>::empty());
            assert(m@.additional =~= Seq::<RecordV>::empty());
            assert(m@.original =~= Seq::<u8>::empty());
            assert(m@.spans =~= Seq::<crate::dns::wire::SpanV>::empty());
            assert(m@ == reply(q@, seq![rec@], Seq::empty()));
            return Ok(Some(m));
        }
        let answers = self.apex_records(d, q.kind, apex);
        let empty = answers.len() == 0;
        m.answers = answers;
        if empty {
            match self.soa(mapped.scope) {
                Ok(s) => m.authority.push(s),
                Err(e) => return Err(e),
            }
        }
        assert(m@.questions =~= seq![q@]);
        assert(m@.answers =~= apex_answers(self@, d@, q.kind, apex));
        assert(m@.authority =~= if apex_answers(self@, d@, q.kind, apex).len() == 0 {
            seq![spec_soa(self@, d@)]
        } else {
            Seq::empty()
        });
        assert(m@.additional =~= Seq::<RecordV>::empty());
        assert(m@.original =~= Seq::<u8>::empty());
        assert(m@.spans =~= Seq::<crate::dns::wire::SpanV>::empty());
        assert(m@ == reply(
            q@,
            apex_answers(self@, d@, q.kind, apex),
            if apex_answers(self@, d@, q.kind, apex).len() == 0 {
                seq![spec_soa(self@, d@)]
            } else {
                Seq::empty()
            },
        ));
        Ok(Some(m))
    }
}

} // verus!

