//! Router-owned DNS namespaces: the registrar and discovery zones, the router's own host
//! name derived from its site, and the renaming of registrations into the registrar zone.
use crate::discovery_proxy::{names_view, opt_name, zone_ok, Zone, ZoneV};
use crate::dns::name::{labels_bytes, labels_view, name_wire, valid_labels, Name};
use crate::error::Error;
use crate::mdns::advertise::{replace_suffix, spec_replace_suffix, spec_within, within};
use crate::persist::Identity;
use vstd::prelude::*;

verus! {

/// A lowercase hexadecimal digit.
pub open spec fn hex_digit(v: u8) -> u8 {
    if v < 10 {
        (48 + v) as u8
    } else {
        (87 + v) as u8
    }
}

/// `snac-` and the five octets after the first of the site prefix, in hexadecimal.
pub open spec fn site_label(site: Seq<u8>) -> Seq<u8> {
    seq![115u8, 110u8, 97u8, 99u8, 45u8] + Seq::new(
        10,
        |i: int| hex_digit(if i % 2 == 0 { site[1 + i / 2] / 16 } else { site[1 + i / 2] % 16 }),
    )
}

pub open spec fn home_arpa() -> Seq<Seq<u8>> {
    seq![seq![104u8, 111u8, 109u8, 101u8], seq![97u8, 114u8, 112u8, 97u8]]
}

/// The router's host name: `snac-<site>.home.arpa.`.
pub open spec fn site_hostname(site: Seq<u8>) -> Seq<Seq<u8>> {
    seq![site_label(site)] + home_arpa()
}

/// `default.service.arpa.`, where clients register.
pub open spec fn default_service_arpa() -> Seq<Seq<u8>> {
    seq![
        seq![100u8, 101u8, 102u8, 97u8, 117u8, 108u8, 116u8],
        seq![115u8, 101u8, 114u8, 118u8, 105u8, 99u8, 101u8],
        seq![97u8, 114u8, 112u8, 97u8],
    ]
}

pub open spec fn srp_label() -> Seq<u8> {
    seq![115u8, 114u8, 112u8]
}

pub open spec fn hostmaster_label() -> Seq<u8> {
    seq![104u8, 111u8, 115u8, 116u8, 109u8, 97u8, 115u8, 116u8, 101u8, 114u8]
}

/// The router's namespaces.
#[derive(Clone, Debug)]
pub struct Zones {
    pub registrar: Name,
    pub discovery: Name,
    pub host: Option<Name>,
    pub reverse: Vec<Name>,
    pub hostname: Name,
    pub mailbox: Name,
}

pub proof fn lemma_labels_bytes_push(ls: Seq<Seq<u8>>, l: Seq<u8>)
    ensures
        labels_bytes(ls.push(l)).len() == labels_bytes(ls).len() + 1 + l.len(),
{
    assert(ls.push(l).drop_last() =~= ls);
}

proof fn lemma_small_names_valid(site: Seq<u8>)
    requires
        site.len() == 16,
    ensures
        valid_labels(site_hostname(site)),
        valid_labels(seq![srp_label()] + site_hostname(site)),
        valid_labels(seq![hostmaster_label()] + site_hostname(site)),
        valid_labels(default_service_arpa()),
{
    let s = site_label(site);
    let h = home_arpa();
    let e = Seq::<Seq<u8>>::empty();
    assert(labels_bytes(e).len() == 0);
    let host = e.push(s).push(h[0]).push(h[1]);
    assert(host =~= site_hostname(site));
    lemma_labels_bytes_push(e, s);
    lemma_labels_bytes_push(e.push(s), h[0]);
    lemma_labels_bytes_push(e.push(s).push(h[0]), h[1]);
    let reg = e.push(srp_label()).push(s).push(h[0]).push(h[1]);
    assert(reg =~= seq![srp_label()] + site_hostname(site));
    lemma_labels_bytes_push(e, srp_label());
    lemma_labels_bytes_push(e.push(srp_label()), s);
    lemma_labels_bytes_push(e.push(srp_label()).push(s), h[0]);
    lemma_labels_bytes_push(e.push(srp_label()).push(s).push(h[0]), h[1]);
    let mb = e.push(hostmaster_label()).push(s).push(h[0]).push(h[1]);
    assert(mb =~= seq![hostmaster_label()] + site_hostname(site));
    lemma_labels_bytes_push(e, hostmaster_label());
    lemma_labels_bytes_push(e.push(hostmaster_label()), s);
    lemma_labels_bytes_push(e.push(hostmaster_label()).push(s), h[0]);
    lemma_labels_bytes_push(e.push(hostmaster_label()).push(s).push(h[0]), h[1]);
    let d = default_service_arpa();
    let ds = e.push(d[0]).push(d[1]).push(d[2]);
    assert(ds =~= d);
    lemma_labels_bytes_push(e, d[0]);
    lemma_labels_bytes_push(e.push(d[0]), d[1]);
    lemma_labels_bytes_push(e.push(d[0]).push(d[1]), d[2]);
}

fn hex(v: u8) -> (r: u8)
    requires
        v < 16,
    ensures
        r == hex_digit(v),
{
    if v < 10 {
        48 + v
    } else {
        87 + v
    }
}

fn name_of(labels: Vec<Vec<u8>>) -> (r: Name)
    requires
        valid_labels(labels_view(labels@)),
    ensures
        r@ == labels_view(labels@),
{
    match Name::from_labels(labels) {
        Ok(n) => n,
        Err(_) => {
            assert(false);
            Name::root()
        },
    }
}

fn default_service_arpa_name() -> (r: Name)
    ensures
        r@ == default_service_arpa(),
{
    let labels = vec![vec![100u8, 101, 102, 97, 117, 108, 116], vec![115u8, 101, 114, 118, 105, 99, 101], vec![97u8, 114, 112, 97]];
    assert(labels_view(labels@) =~= default_service_arpa());
    proof {
        lemma_small_names_valid(seq![0u8, 0u8, 0u8, 0u8, 0u8, 0u8, 0u8, 0u8, 0u8, 0u8, 0u8, 0u8, 0u8, 0u8, 0u8, 0u8]);
    }
    name_of(labels)
}

impl Zones {
    /// The namespaces of a router with the given identity: its host name
    /// `snac-<five site octets in hex>.home.arpa.`, the registrar zone `srp.` under it, the
    /// discovery zone `default.service.arpa.`, and `hostmaster.` under it as mailbox.
    pub fn for_identity(identity: &Identity) -> (r: Zones)
        ensures
            r.hostname@ == site_hostname(identity.site@),
            r.registrar@ == seq![srp_label()] + site_hostname(identity.site@),
            r.discovery@ == default_service_arpa(),
            r.host is None,
            r.reverse@.len() == 0,
            r.mailbox@ == seq![hostmaster_label()] + site_hostname(identity.site@),
    {
        let site = identity.site;
        let mut label: Vec<u8> = vec![115u8, 110, 97, 99, 45];
        let mut i: usize = 1;
        while i < 6
            invariant
                1 <= i <= 6,
                label@.len() == 5 + 2 * (i - 1),
                label@.subrange(0, 5) == seq![115u8, 110u8, 97u8, 99u8, 45u8],
                forall|j: int| 0 <= j < 2 * (i - 1) ==> #[trigger] label@[5 + j] == site_label(site@)[5 + j],
            decreases 6 - i,
        {
            let b = site[i];
            label.push(hex(b / 16));
            label.push(hex(b % 16));
            assert(label@.subrange(0, 5) =~= seq![115u8, 110u8, 97u8, 99u8, 45u8]);
            i = i + 1;
        }
        assert forall|k: int| 0 <= k < 15 implies #[trigger] label@[k] == site_label(site@)[k] by {
            if k < 5 {
                assert(label@.subrange(0, 5)[k] == label@[k]);
            } else {
                assert(label@[5 + (k - 5)] == site_label(site@)[5 + (k - 5)]);
            }
        }
        assert(label@ =~= site_label(site@));
        let ghost host = site_hostname(site@);
        proof {
            lemma_small_names_valid(site@);
        }
        let home = vec![104u8, 111, 109, 101];
        let arpa = vec![97u8, 114, 112, 97];
        let host_labels = vec![label.clone(), home.clone(), arpa.clone()];
        assert(labels_view(host_labels@) =~= host);
        let registrar_labels = vec![vec![115u8, 114, 112], label.clone(), home.clone(), arpa.clone()];
        assert(labels_view(registrar_labels@) =~= seq![srp_label()] + host);
        let mailbox_labels = vec![vec![104u8, 111, 115, 116, 109, 97, 115, 116, 101, 114], label, home, arpa];
        assert(labels_view(mailbox_labels@) =~= seq![hostmaster_label()] + host);
        Zones {
            registrar: name_of(registrar_labels),
            discovery: default_service_arpa_name(),
            host: None,
            reverse: Vec::new(),
            hostname: name_of(host_labels),
            mailbox: name_of(mailbox_labels),
        }
    }

    /// The Discovery Proxy zone for these namespaces; refuses an empty registrar zone or a
    /// host name inside it.
    pub fn proxy(&self) -> (r: Result<Zone, Error>)
        ensures
            ({
                let want = ZoneV {
                    service: self.discovery@,
                    host: opt_name(self.host),
                    reverse: names_view(self.reverse@),
                    nameservers: seq![self.hostname@],
                    mailbox: self.mailbox@,
                };
                &&& r is Ok <==> (self.registrar@.len() > 0 && !spec_within(self.hostname@, self.registrar@) && zone_ok(want))
                &&& r matches Ok(z) ==> z@ == want
                &&& r matches Err(e) ==> e == Error::Invalid
            }),
    {
        if self.registrar.label_count() == 0 || within(&self.hostname, &self.registrar) {
            return Err(Error::Invalid);
        }
        let host = match &self.host {
            Some(h) => Some(h.clone()),
            None => None,
        };
        let ns = vec![self.hostname.clone()];
        assert(names_view(ns@) =~= seq![self.hostname@]);
        Zone::new(self.discovery.clone(), host, self.reverse.as_slice(), ns.as_slice(), self.mailbox.clone())
    }

    /// The name under which a registration for `name` is kept: `default.service.arpa.`
    /// replaced by the registrar zone.
    pub fn registration_name(&self, name: &Name) -> (r: Result<Name, Error>)
        ensures
            match spec_replace_suffix(name@, default_service_arpa(), self.registrar@) {
                None => r is Err,
                Some(ls) => r matches Ok(n) && n@ == ls,
            },
    {
        replace_suffix(name, &default_service_arpa_name(), &self.registrar)
    }
}

} // verus!
