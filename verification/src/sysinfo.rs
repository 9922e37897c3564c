//! The host registry snapshot and the set of active extensions drawn
//! from it: hosts whose name is a non-empty string of decimal digits
//! stand for phone extensions; every other host is ignored.

use vstd::prelude::*;
use crate::strutil::all_digits;

verus! {

/// One host of the registry snapshot: its name and its network address.
pub struct Host {
    pub name: String,
    pub ip: String,
}

/// A registry snapshot: the hosts known at the time it was fetched.
pub struct SysInfo {
    pub hosts: Vec<Host>,
}

/// A host name stands for a phone extension when it is non-empty and
/// made of decimal digits only.
pub open spec fn qualifies(name: Seq<char>) -> bool {
    name.len() > 0 && all_digits(name)
}

/// The extension map that a sequence of hosts induces: each qualifying
/// host contributes `name -> ip`, and a later host with the same name
/// wins.
pub open spec fn active_map_of(hosts: Seq<Host>) -> Map<Seq<char>, Seq<char>>
    decreases hosts.len(),
{
    if hosts.len() == 0 {
        Map::<Seq<char>, Seq<char>>::empty()
    } else {
        let m = active_map_of(hosts.drop_last());
        let h = hosts.last();
        if qualifies(h.name@) {
            m.insert(h.name@, h.ip@)
        } else {
            m
        }
    }
}

/// Every key of the induced extension map is a non-empty digit string.
pub proof fn lemma_active_map_keys(hosts: Seq<Host>, k: Seq<char>)
    requires
        active_map_of(hosts).contains_key(k),
    ensures
        qualifies(k),
    decreases hosts.len(),
{
    if hosts.len() > 0 {
        if !(qualifies(hosts.last().name@) && hosts.last().name@ == k) {
            lemma_active_map_keys(hosts.drop_last(), k);
        }
    }
}

/// Whether every character of the string is an ASCII decimal digit;
/// true of the empty string.
pub fn is_numeric_only(s: &str) -> (r: bool)
    ensures
        r == all_digits(s@),
{
    let len = s.unicode_len();
    let mut i: usize = 0;
    while i < len
        invariant
            len == s@.len(),
            0 <= i <= len,
            forall|j: int| 0 <= j < i ==> crate::strutil::is_digit_char(s@[j]),
        decreases len - i,
    {
        let c = s.get_char(i);
        let u = c as u32;
        if u < 48 || u > 57 {
            return false;
        }
        i = i + 1;
    }
    true
}

/// The set of active extensions: a mapping from extension number to
/// host address, looked up when records are built.
pub struct HostMap {
    keys: Vec<String>,
    ips: Vec<String>,
}

/// The map that parallel key and address vectors induce, later entries
/// winning.
pub open spec fn map_of(keys: Seq<String>, ips: Seq<String>) -> Map<Seq<char>, Seq<char>>
    decreases keys.len(),
{
    if keys.len() == 0 || keys.len() != ips.len() {
        Map::<Seq<char>, Seq<char>>::empty()
    } else {
        map_of(keys.drop_last(), ips.drop_last()).insert(keys.last()@, ips.last()@)
    }
}

proof fn lemma_map_of_contains_at(keys: Seq<String>, ips: Seq<String>, k: Seq<char>, i: int)
    requires
        keys.len() == ips.len(),
        0 <= i < keys.len(),
        keys[i]@ == k,
    ensures
        map_of(keys, ips).contains_key(k),
    decreases keys.len(),
{
    if i < keys.len() - 1 {
        lemma_map_of_contains_at(keys.drop_last(), ips.drop_last(), k, i);
    }
}

proof fn lemma_map_of_not_contains(keys: Seq<String>, ips: Seq<String>, k: Seq<char>)
    requires
        keys.len() == ips.len(),
        forall|i: int| 0 <= i < keys.len() ==> keys[i]@ != k,
    ensures
        !map_of(keys, ips).contains_key(k),
    decreases keys.len(),
{
    if keys.len() > 0 {
        assert(keys[keys.len() - 1]@ != k);
        lemma_map_of_not_contains(keys.drop_last(), ips.drop_last(), k);
    }
}

impl View for HostMap {
    type V = Map<Seq<char>, Seq<char>>;

    closed spec fn view(&self) -> Map<Seq<char>, Seq<char>> {
        map_of(self.keys@, self.ips@)
    }
}

impl HostMap {
    /// A well-formed map keeps one address per key.
    pub closed spec fn wf(&self) -> bool {
        self.keys.len() == self.ips.len()
    }

    /// Whether the given extension number is a key of the map.
    pub fn contains(&self, key: &String) -> (r: bool)
        requires
            self.wf(),
        ensures
            r == self@.contains_key(key@),
    {
        let mut i: usize = 0;
        while i < self.keys.len()
            invariant
                self.keys@.len() == self.ips@.len(),
                0 <= i <= self.keys.len(),
                forall|j: int| 0 <= j < i ==> self.keys@[j]@ != key@,
            decreases self.keys.len() - i,
        {
            if self.keys[i] == *key {
                proof {
                    lemma_map_of_contains_at(self.keys@, self.ips@, key@, i as int);
                }
                return true;
            }
            i = i + 1;
        }
        proof {
            lemma_map_of_not_contains(self.keys@, self.ips@, key@);
        }
        false
    }
}

impl SysInfo {
    /// Builds the active-extension map of this snapshot: one entry per
    /// host whose name is a non-empty digit string, keyed by that name.
    pub fn create_host_map(&self) -> (r: HostMap)
        ensures
            r.wf(),
            r@ == active_map_of(self.hosts@),
    {
        let mut m = HostMap { keys: Vec::new(), ips: Vec::new() };
        let n = self.hosts.len();
        let mut i: usize = 0;
        proof {
            assert(self.hosts@.take(0) =~= Seq::<Host>::empty());
        }
        while i < n
            invariant
                n == self.hosts.len(),
                0 <= i <= n,
                m.keys.len() == m.ips.len(),
                map_of(m.keys@, m.ips@) == active_map_of(self.hosts@.take(i as int)),
            decreases n - i,
        {
            let host = &self.hosts[i];
            proof {
                assert(self.hosts@.take(i + 1).drop_last() =~= self.hosts@.take(i as int));
                assert(self.hosts@.take(i + 1).last() == self.hosts@[i as int]);
            }
            if !host.name.as_str().is_empty() && is_numeric_only(host.name.as_str()) {
                let ghost old_keys = m.keys@;
                let ghost old_ips = m.ips@;
                m.keys.push(host.name.clone());
                m.ips.push(host.ip.clone());
                proof {
                    assert(m.keys@.drop_last() =~= old_keys);
                    assert(m.ips@.drop_last() =~= old_ips);
                }
            }
            i = i + 1;
        }
        proof {
            assert(self.hosts@.take(n as int) =~= self.hosts@);
        }
        m
    }
}

} // verus!
