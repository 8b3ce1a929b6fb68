//! The service level: the registry of configured and opened stores, the
//! autolock sweep, the single clipboard slot and the subscriber registry.
//! Reading and writing the configuration document and delivering events to
//! handlers stay with the embedding program; this module owns the decisions.

use vstd::prelude::*;

use crate::block_store::BlockStore;
use crate::clipboard::SelectionDebounce;
use crate::crypto::now_millis;
use crate::error::ServiceError;
use crate::api::SecretVersion;
use crate::block_store::spec_has_block;
use crate::memguard::SecretBytes;
use crate::wire::spec_enc_version;
use crate::secrets_store::{is_current_meta, spec_block_yields, store_wf, SecretsStore,
    SecretsStoreView};
use crate::util::str_eq;

verus! {

/// The persisted configuration of one store.
pub struct StoreConfig {
    pub name: String,
    pub store_url: String,
    pub client_id: String,
    pub autolock_timeout_secs: u64,
}

#[verifier::ext_equal]
pub ghost struct StoreConfigView {
    pub name: Seq<char>,
    pub store_url: Seq<char>,
    pub client_id: Seq<char>,
    pub autolock_timeout_secs: u64,
}

impl View for StoreConfig {
    type V = StoreConfigView;

    open spec fn view(&self) -> StoreConfigView {
        StoreConfigView {
            name: self.name@,
            store_url: self.store_url@,
            client_id: self.client_id@,
            autolock_timeout_secs: self.autolock_timeout_secs,
        }
    }
}

/// The whole configuration document: store configurations and the default
/// store.
pub struct Config {
    pub stores: Vec<StoreConfig>,
    pub default_store: Option<String>,
}

#[verifier::ext_equal]
pub ghost struct ConfigView {
    pub stores: Seq<StoreConfigView>,
    pub default_store: Option<Seq<char>>,
}

impl View for Config {
    type V = ConfigView;

    open spec fn view(&self) -> ConfigView {
        ConfigView {
            stores: Seq::new(self.stores@.len(), |i: int| self.stores@[i]@),
            default_store: match self.default_store {
                Some(ref d) => Some(d@),
                None => None,
            },
        }
    }
}

/// Store names are unique in the configuration.
pub open spec fn config_wf(c: ConfigView) -> bool {
    forall|i: int, j: int|
        0 <= i < j < c.stores.len() ==> (#[trigger] c.stores[i]).name != (
        #[trigger] c.stores[j]).name
}

/// Some configured store carries `name`.
pub open spec fn config_has(c: ConfigView, name: Seq<char>) -> bool {
    exists|i: int| 0 <= i < c.stores.len() && (#[trigger] c.stores[i]).name == name
}

/// What the service announces to subscribers.
pub enum Event {
    StoreUnlocked { store_name: String, identity_id: String },
    StoreLocked { store_name: String },
    ClipboardProviding { store_name: String, secret_id: String },
    ClipboardDone,
    SecretStored { store_name: String, secret_id: String },
}

/// The registry of subscribers and the queue of announced events. Fresh
/// subscriber ids are handed out and can be returned; events queue up here
/// and the embedding program drains the queue and calls each subscriber's
/// handler with every drained event.
pub struct LocalEventHub {
    next_id: u32,
    handlers: Vec<u32>,
    pending: Vec<Event>,
}

#[verifier::ext_equal]
pub ghost struct LocalEventHubView {
    pub next_id: u32,
    pub handlers: Seq<u32>,
    pub pending: Seq<Event>,
}

impl View for LocalEventHub {
    type V = LocalEventHubView;

    closed spec fn view(&self) -> LocalEventHubView {
        LocalEventHubView {
            next_id: self.next_id,
            handlers: self.handlers@,
            pending: self.pending@,
        }
    }
}

impl LocalEventHub {
    /// An empty registry with an empty queue.
    pub fn new() -> (r: LocalEventHub)
        ensures
            r@.next_id == 0,
            r@.handlers.len() == 0,
            r@.pending.len() == 0,
    {
        LocalEventHub { next_id: 0, handlers: Vec::new(), pending: Vec::new() }
    }

    /// Queue an event for every subscriber.
    pub fn send(&mut self, event: Event)
        ensures
            final(self)@.pending == old(self)@.pending.push(event),
            final(self)@.handlers == old(self)@.handlers,
            final(self)@.next_id == old(self)@.next_id,
    {
        self.pending.push(event);
    }

    /// The registered subscriber ids, for the embedding program to walk
    /// when it delivers drained events.
    pub fn handlers(&self) -> (r: Vec<u32>)
        ensures
            r@ == self@.handlers,
    {
        let mut out: Vec<u32> = Vec::new();
        let mut i: usize = 0;
        while i < self.handlers.len()
            invariant
                i <= self.handlers@.len(),
                out@ == self.handlers@.subrange(0, i as int),
            decreases self.handlers@.len() - i,
        {
            out.push(self.handlers[i]);
            proof {
                assert(out@ =~= self.handlers@.subrange(0, i + 1));
            }
            i = i + 1;
        }
        proof {
            assert(out@ =~= self@.handlers);
        }
        out
    }

    /// Hand out the queued events and empty the queue.
    pub fn take_pending(&mut self) -> (r: Vec<Event>)
        ensures
            r@ == old(self)@.pending,
            final(self)@.pending.len() == 0,
            final(self)@.handlers == old(self)@.handlers,
            final(self)@.next_id == old(self)@.next_id,
    {
        let mut drained: Vec<Event> = Vec::new();
        core::mem::swap(&mut drained, &mut self.pending);
        drained
    }

    /// Register a handler slot; returns its fresh id. Fails once the id
    /// space is exhausted.
    pub fn add_event_handler(&mut self) -> (r: Result<u32, ServiceError>)
        ensures
            r matches Ok(id) ==> id == old(self)@.next_id && final(self)@.handlers == old(
                self)@.handlers.push(id) && final(self)@.next_id == old(self)@.next_id + 1,
            final(self)@.pending == old(self)@.pending,
            r is Err ==> final(self)@ == old(self)@,
            r is Ok <==> old(self)@.next_id < u32::MAX,
    {
        if self.next_id == u32::MAX {
            return Err(ServiceError::NotAvailable);
        }
        let id = self.next_id;
        self.handlers.push(id);
        self.next_id = self.next_id + 1;
        Ok(id)
    }

    /// Unregister a handler slot. Unknown ids are ignored.
    pub fn remove_event_handler(&mut self, id: u32)
        ensures
            final(self)@.next_id == old(self)@.next_id,
            final(self)@.pending == old(self)@.pending,
            forall|j: int|
                0 <= j < final(self)@.handlers.len() ==> (#[trigger] final(self)@.handlers[j])
                    != id,
            forall|x: u32|
                old(self)@.handlers.contains(x) && x != id ==> final(self)@.handlers.contains(x),
    {
        let mut kept: Vec<u32> = Vec::new();
        let mut i: usize = 0;
        while i < self.handlers.len()
            invariant
                i <= self.handlers@.len(),
                forall|a: int| 0 <= a < kept@.len() ==> (#[trigger] kept@[a]) != id,
                forall|j: int|
                    0 <= j < i && (#[trigger] self.handlers@[j]) != id ==> kept@.contains(
                        self.handlers@[j],
                    ),
            decreases self.handlers@.len() - i,
        {
            let x = self.handlers[i];
            let ghost pre_kept = kept@;
            if x != id {
                kept.push(x);
            }
            proof {
                assert forall|j: int|
                    0 <= j < i + 1 && (#[trigger] self.handlers@[j]) != id implies kept@.contains(
                    self.handlers@[j],
                ) by {
                    if j < i {
                        let a = choose|a: int|
                            0 <= a < pre_kept.len() && pre_kept[a] == self.handlers@[j];
                        assert(kept@[a] == self.handlers@[j]);
                    } else {
                        assert(kept@[kept@.len() - 1] == x);
                    }
                }
            }
            i = i + 1;
        }
        self.handlers = kept;
        proof {
            assert forall|x: u32|
                old(self)@.handlers.contains(x) && x != id implies final(
                self)@.handlers.contains(x) by {
                let j = choose|j: int|
                    0 <= j < old(self)@.handlers.len() && old(self)@.handlers[j] == x;
                assert(old(self).handlers@[j] != id);
            }
        }
    }
}

/// An owned subscription: the id to return to the hub when the subscriber
/// goes away.
pub struct LocalEventSubscription {
    pub id: u32,
}

impl LocalEventSubscription {
    /// Wrap a handler id.
    pub fn new(id: u32) -> (r: LocalEventSubscription)
        ensures
            r.id == id,
    {
        LocalEventSubscription { id }
    }
}

/// The ghost state of the service.
#[verifier::ext_equal]
pub ghost struct ServiceView {
    pub config: ConfigView,
    pub opened: Seq<(Seq<char>, SecretsStoreView)>,
    pub clipboard: Option<crate::clipboard::SelectionDebounceView>,
    pub events: LocalEventHubView,
}

/// Unique store names, well-formed stores and configuration.
pub open spec fn service_wf(v: ServiceView) -> bool {
    &&& config_wf(v.config)
    &&& forall|i: int, j: int|
        0 <= i < j < v.opened.len() ==> (#[trigger] v.opened[i]).0 != (#[trigger] v.opened[j]).0
    &&& forall|i: int| 0 <= i < v.opened.len() ==> store_wf((#[trigger] v.opened[i]).1)
}

/// A configured timeout in seconds, as milliseconds, saturating.
pub open spec fn spec_secs_to_millis(secs: u64) -> u64 {
    if secs > u64::MAX / 1000 {
        u64::MAX
    } else {
        (secs * 1000) as u64
    }
}

/// Some opened store carries `name`.
pub open spec fn opened_has(opened: Seq<(Seq<char>, SecretsStoreView)>, name: Seq<char>) -> bool {
    exists|i: int| 0 <= i < opened.len() && (#[trigger] opened[i]).0 == name
}

/// The service: configuration, opened stores, the clipboard slot and the
/// subscriber registry.
pub struct LocalTrustlessService {
    config: Config,
    opened: Vec<(String, SecretsStore)>,
    clipboard: Option<SelectionDebounce>,
    events: LocalEventHub,
}

impl View for LocalTrustlessService {
    type V = ServiceView;

    closed spec fn view(&self) -> ServiceView {
        ServiceView {
            config: self.config@,
            opened: Seq::new(self.opened@.len(), |i: int| (self.opened@[i].0@,
                self.opened@[i].1@)),
            clipboard: match self.clipboard {
                Some(ref c) => Some(c@),
                None => None,
            },
            events: self.events@,
        }
    }
}

impl LocalTrustlessService {
    /// A service over an already-loaded configuration, with no stores
    /// opened yet.
    pub fn new(config: Config) -> (r: Result<LocalTrustlessService, ServiceError>)
        requires
            config_wf(config@),
        ensures
            r matches Ok(s) ==> service_wf(s@) && s@.config == config@ && s@.opened.len() == 0
                && s@.clipboard is None && s@.events.handlers.len() == 0 && s@.events.next_id == 0
                && s@.events.pending.len() == 0,
            r is Ok,
    {
        Ok(
            LocalTrustlessService {
                config,
                opened: Vec::new(),
                clipboard: None,
                events: LocalEventHub::new(),
            },
        )
    }

    /// The names of the configured stores, in order.
    pub fn list_stores(&self) -> (r: Vec<String>)
        ensures
            r@.len() == self@.config.stores.len(),
            forall|i: int| 0 <= i < r@.len() ==> (#[trigger] r@[i])@ == self@.config.stores[i].name,
    {
        let mut out: Vec<String> = Vec::new();
        let mut i: usize = 0;
        while i < self.config.stores.len()
            invariant
                i <= self.config.stores@.len(),
                self@.config.stores.len() == self.config.stores@.len(),
                out@.len() == i,
                forall|j: int|
                    0 <= j < i ==> (#[trigger] out@[j])@ == self@.config.stores[j].name,
            decreases self.config.stores@.len() - i,
        {
            proof {
                assert(self@.config.stores[i as int] == self.config.stores@[i as int]@);
            }
            out.push(self.config.stores[i].name.clone());
            i = i + 1;
        }
        out
    }

    /// Find a configured store.
    fn find_config(&self, name: &str) -> (r: Option<usize>)
        ensures
            r matches Some(i) ==> i < self@.config.stores.len() && self@.config.stores[
                i as int].name == name@,
            r is None ==> !config_has(self@.config, name@),
    {
        let mut i: usize = 0;
        while i < self.config.stores.len()
            invariant
                i <= self.config.stores@.len(),
                self@.config.stores.len() == self.config.stores@.len(),
                forall|j: int| 0 <= j < i ==> (#[trigger] self@.config.stores[j]).name != name@,
            decreases self.config.stores@.len() - i,
        {
            if str_eq(self.config.stores[i].name.as_str(), name) {
                proof {
                    assert(self@.config.stores[i as int].name == name@);
                }
                return Some(i);
            }
            proof {
                assert(self@.config.stores[i as int] == self.config.stores@[i as int]@);
            }
            i = i + 1;
        }
        None
    }

    /// Store or replace one store's configuration. The first configured
    /// store becomes the default. The embedding program persists the
    /// configuration afterwards.
    pub fn set_store_config(&mut self, store_config: StoreConfig) -> (r: Result<(), ServiceError>)
        requires
            service_wf(old(self)@),
        ensures
            service_wf(final(self)@),
            r is Ok,
            final(self)@.opened == old(self)@.opened,
            config_has(final(self)@.config, store_config@.name),
            exists|i: int|
                0 <= i < final(self)@.config.stores.len() && (
                #[trigger] final(self)@.config.stores[i]) == store_config@,
            forall|j: int|
                0 <= j < old(self)@.config.stores.len() && (
                #[trigger] old(self)@.config.stores[j]).name != store_config@.name ==> exists|
                    i: int,
                |
                    0 <= i < final(self)@.config.stores.len() && (
                    #[trigger] final(self)@.config.stores[i]) == old(self)@.config.stores[j],
            forall|i: int|
                0 <= i < final(self)@.config.stores.len() && (
                #[trigger] final(self)@.config.stores[i]).name != store_config@.name ==> exists|
                    j: int,
                |
                    0 <= j < old(self)@.config.stores.len() && (
                    #[trigger] old(self)@.config.stores[j]) == final(self)@.config.stores[i],
            old(self)@.config.default_store is None ==> final(self)@.config.default_store == Some(
                store_config@.name,
            ),
            old(self)@.config.default_store is Some ==> final(self)@.config.default_store == old(
                self)@.config.default_store,
    {
        if self.config.default_store.is_none() {
            self.config.default_store = Some(store_config.name.clone());
        }
        let ghost pre = self@.config.stores;
        match self.find_config(store_config.name.as_str()) {
            Some(i) => {
                let ghost scv = store_config@;
                let _old_entry = self.config.stores.swap_remove(i);
                self.config.stores.push(store_config);
                proof {
                    let post = self@.config.stores;
                    let n = pre.len();
                    assert(post[n - 1] == scv);
                    assert forall|a: int| 0 <= a < n - 1 implies #[trigger] post[a] == (if a == i {
                        pre[n - 1]
                    } else {
                        pre[a]
                    }) by {
                        assert(post[a] == self.config.stores@[a]@);
                    }
                    assert forall|a: int, b: int| 0 <= a < b < post.len() implies (
                    #[trigger] post[a]).name != (#[trigger] post[b]).name by {
                        if b == n - 1 {
                            if a == i {
                                assert(post[a].name == pre[n - 1].name);
                            } else {
                                assert(post[a].name == pre[a].name);
                            }
                            assert(pre[i as int].name == scv.name);
                        }
                    }
                    assert(config_has(self@.config, scv.name)) by {
                        assert(post[n - 1].name == scv.name);
                    }
                    assert(final(self)@.opened =~= old(self)@.opened);
                    assert(pre == old(self)@.config.stores);
                    assert forall|j: int|
                        0 <= j < old(self)@.config.stores.len() && (#[trigger] old(
                            self)@.config.stores[j]).name != scv.name implies exists|i2: int|
                        0 <= i2 < post.len() && (#[trigger] post[i2]) == old(
                            self)@.config.stores[j] by {
                        if j == n - 1 {
                            assert(post[i as int] == pre[n - 1]);
                        } else {
                            assert(post[j] == pre[j]);
                        }
                    }
                    assert forall|i2: int|
                        0 <= i2 < post.len() && (#[trigger] post[i2]).name
                            != scv.name implies exists|j: int|
                        0 <= j < old(self)@.config.stores.len() && (#[trigger] old(
                            self)@.config.stores[j]) == post[i2] by {
                        if i2 == i {
                            assert(post[i2] == pre[n - 1]);
                        } else {
                            assert(post[i2] == pre[i2]);
                        }
                    }
                }
                Ok(())
            },
            None => {
                let ghost scv = store_config@;
                self.config.stores.push(store_config);
                proof {
                    let post = self@.config.stores;
                    assert(post =~= pre.push(scv));
                    assert forall|a: int, b: int| 0 <= a < b < post.len() implies (
                    #[trigger] post[a]).name != (#[trigger] post[b]).name by {
                        if b == post.len() - 1 {
                            assert(post[a] == pre[a]);
                        }
                    }
                    assert(config_has(self@.config, scv.name)) by {
                        assert(post[post.len() - 1].name == scv.name);
                    }
                    assert(final(self)@.opened =~= old(self)@.opened);
                    assert(pre == old(self)@.config.stores);
                    assert forall|j: int|
                        0 <= j < old(self)@.config.stores.len() && (#[trigger] old(
                            self)@.config.stores[j]).name != scv.name implies exists|i2: int|
                        0 <= i2 < post.len() && (#[trigger] post[i2]) == old(
                            self)@.config.stores[j] by {
                        assert(post[j] == pre[j]);
                    }
                    assert forall|i2: int|
                        0 <= i2 < post.len() && (#[trigger] post[i2]).name
                            != scv.name implies exists|j: int|
                        0 <= j < old(self)@.config.stores.len() && (#[trigger] old(
                            self)@.config.stores[j]) == post[i2] by {
                        assert(i2 < post.len() - 1);
                        assert(post[i2] == pre[i2]);
                    }
                }
                Ok(())
            },
        }
    }

    /// Look up one store's configuration.
    pub fn get_store_config(&self, name: &str) -> (r: Result<StoreConfig, ServiceError>)
        ensures
            r is Ok <==> config_has(self@.config, name@),
            r matches Ok(sc) ==> exists|i: int|
                0 <= i < self@.config.stores.len() && (#[trigger] self@.config.stores[i]) == sc@
                    && sc@.name == name@,
            r is Err ==> (r matches Err(ServiceError::StoreNotFound(n)) && n@ == name@),
    {
        match self.find_config(name) {
            Some(i) => {
                let sc = &self.config.stores[i];
                proof {
                    assert(self@.config.stores[i as int] == sc@);
                }
                Ok(
                    StoreConfig {
                        name: sc.name.clone(),
                        store_url: sc.store_url.clone(),
                        client_id: sc.client_id.clone(),
                        autolock_timeout_secs: sc.autolock_timeout_secs,
                    },
                )
            },
            None => Err(ServiceError::StoreNotFound(name.to_owned())),
        }
    }

    /// The configured default store, if any.
    pub fn get_default_store(&self) -> (r: Option<String>)
        ensures
            r is Some <==> self@.config.default_store is Some,
            r matches Some(n) ==> n@ == self@.config.default_store.unwrap(),
    {
        match &self.config.default_store {
            Some(d) => Some(d.clone()),
            None => None,
        }
    }

    /// Make a configured store the default.
    pub fn set_default_store(&mut self, name: &str) -> (r: Result<(), ServiceError>)
        requires
            service_wf(old(self)@),
        ensures
            service_wf(final(self)@),
            r is Ok <==> config_has(old(self)@.config, name@),
            r is Ok ==> final(self)@.config.default_store == Some(name@) && final(
                self)@.config.stores == old(self)@.config.stores && final(self)@.opened == old(
                self)@.opened,
            r is Err ==> (r matches Err(ServiceError::StoreNotFound(n)) && n@ == name@) && final(
                self)@ == old(self)@,
    {
        match self.find_config(name) {
            Some(_) => {
                self.config.default_store = Some(name.to_owned());
                proof {
                    assert(final(self)@.opened =~= old(self)@.opened);
                    assert(final(self)@.config.stores =~= old(self)@.config.stores);
                }
                Ok(())
            },
            None => Err(ServiceError::StoreNotFound(name.to_owned())),
        }
    }

    /// Find an opened store.
    fn find_opened(&self, name: &str) -> (r: Option<usize>)
        ensures
            r matches Some(i) ==> i < self@.opened.len() && self@.opened[i as int].0 == name@,
            r is None ==> !opened_has(self@.opened, name@),
    {
        let mut i: usize = 0;
        while i < self.opened.len()
            invariant
                i <= self.opened@.len(),
                self@.opened.len() == self.opened@.len(),
                forall|j: int| 0 <= j < i ==> (#[trigger] self@.opened[j]).0 != name@,
            decreases self.opened@.len() - i,
        {
            if str_eq(self.opened[i].0.as_str(), name) {
                proof {
                    assert(self@.opened[i as int].0 == name@);
                }
                return Some(i);
            }
            proof {
                assert(self@.opened[i as int].0 == self.opened@[i as int].0@);
            }
            i = i + 1;
        }
        None
    }

    /// Open a configured store, or find it already opened. A fresh store
    /// starts over an empty block log and locked; the embedding program
    /// loads persisted blocks into it.
    pub fn open_store(&mut self, name: &str) -> (r: Result<(), ServiceError>)
        requires
            service_wf(old(self)@),
        ensures
            service_wf(final(self)@),
            final(self)@.config == old(self)@.config,
            final(self)@.clipboard == old(self)@.clipboard,
            final(self)@.events == old(self)@.events,
            r is Ok <==> (opened_has(old(self)@.opened, name@) || config_has(
                old(self)@.config,
                name@,
            )),
            r is Ok ==> opened_has(final(self)@.opened, name@),
            opened_has(old(self)@.opened, name@) ==> final(self)@ == old(self)@,
            r is Err ==> (r matches Err(ServiceError::StoreNotFound(n)) && n@ == name@) && final(
                self)@ == old(self)@,
            !opened_has(old(self)@.opened, name@) && r is Ok ==> exists|s: SecretsStoreView|
                #![trigger old(self)@.opened.push((name@, s))]
                {
                    &&& final(self)@.opened == old(self)@.opened.push((name@, s))
                    &&& s.unlocked_by is None
                    &&& s.blocks.entries.len() == 0
                    &&& s.ring.len() == 0
                    &&& s.index.len() == 0
                    &&& exists|i: int|
                        0 <= i < old(self)@.config.stores.len() && (#[trigger] old(
                            self)@.config.stores[i]).name == name@ && s.autolock_timeout_millis
                            == spec_secs_to_millis(
                            old(self)@.config.stores[i].autolock_timeout_secs,
                        )
                },
    {
        if self.find_opened(name).is_some() {
            return Ok(());
        }
        let i = match self.find_config(name) {
            Some(i) => i,
            None => {
                return Err(ServiceError::StoreNotFound(name.to_owned()));
            },
        };
        proof {
            assert(self@.config.stores[i as int] == self.config.stores@[i as int]@);
        }
        let secs = self.config.stores[i].autolock_timeout_secs;
        let millis = if secs > u64::MAX / 1000 {
            u64::MAX
        } else {
            secs * 1000
        };
        proof {
            assert(millis == spec_secs_to_millis(secs));
        }
        let blocks = BlockStore::new();
        let store = match SecretsStore::open(millis, blocks) {
            Ok(s) => s,
            Err(_) => {
                proof {
                    assert(false);
                }
                return Err(ServiceError::StoreNotFound(name.to_owned()));
            },
        };
        let ghost pre = self@.opened;
        let ghost sv = store@;
        self.opened.push((name.to_owned(), store));
        proof {
            assert(self@.opened =~= pre.push((name@, sv)));
            assert forall|a: int, b: int| 0 <= a < b < self@.opened.len() implies (
            #[trigger] self@.opened[a]).0 != (#[trigger] self@.opened[b]).0 by {
                if b == self@.opened.len() - 1 {
                    assert(self@.opened[a] == pre[a]);
                }
            }
            assert(opened_has(self@.opened, name@)) by {
                assert(self@.opened[self@.opened.len() - 1].0 == name@);
            }
            assert(sv.autolock_timeout_millis == spec_secs_to_millis(
                old(self)@.config.stores[i as int].autolock_timeout_secs,
            ));
        }
        Ok(())
    }

    /// Borrow an opened store for its per-store operations.
    pub fn store_mut(&mut self, name: &str) -> (r: Option<&mut SecretsStore>)
        requires
            service_wf(old(self)@),
        ensures
            r is Some <==> opened_has(old(self)@.opened, name@),
            r is None ==> final(self)@ == old(self)@,
            r matches Some(s) ==> exists|i: int|
                {
                    &&& 0 <= i < old(self)@.opened.len()
                    &&& (#[trigger] old(self)@.opened[i]).0 == name@
                    &&& (*s)@ == old(self)@.opened[i].1
                    &&& final(self)@ == (ServiceView {
                        opened: old(self)@.opened.update(i, (name@, final(s)@)),
                        ..old(self)@
                    })
                },
    {
        let i = match self.find_opened(name) {
            Some(i) => i,
            None => {
                return None;
            },
        };
        let entry = &mut self.opened[i];
        let s = &mut entry.1;
        Some(s)
    }

    /// Lock every opened store whose autolock deadline has passed `now`.
    /// Other stores are left alone.
    pub fn check_autolock_at(&mut self, now: u64)
        requires
            service_wf(old(self)@),
        ensures
            service_wf(final(self)@),
            final(self)@.config == old(self)@.config,
            final(self)@.clipboard == old(self)@.clipboard,
            final(self)@.opened.len() == old(self)@.opened.len(),
            forall|i: int|
                0 <= i < old(self)@.opened.len() ==> (#[trigger] final(self)@.opened[i]).0 == old(
                    self)@.opened[i].0,
            forall|i: int|
                0 <= i < old(self)@.opened.len() ==> ((old(self)@.opened[i].1.autolock_at matches
                Some(t) && t < now) ==> (#[trigger] final(self)@.opened[i]).1 == (
                SecretsStoreView {
                    unlocked_by: None,
                    key: None,
                    autolock_at: None,
                    index: Seq::<crate::secrets_store::IndexEntryView>::empty(),
                    ..old(self)@.opened[i].1
                })),
            forall|i: int|
                0 <= i < old(self)@.opened.len() ==> (!(old(self)@.opened[i].1.autolock_at matches
                Some(t) && t < now) ==> (#[trigger] final(self)@.opened[i]).1 == old(
                    self)@.opened[i].1),
            final(self)@.events.handlers == old(self)@.events.handlers,
            final(self)@.events.next_id == old(self)@.events.next_id,
            old(self)@.events.pending.len() <= final(self)@.events.pending.len(),
            final(self)@.events.pending.subrange(0, old(self)@.events.pending.len() as int) == old(
                self)@.events.pending,
    {
        let ghost pre = self@.opened;
        let mut i: usize = 0;
        while i < self.opened.len()
            invariant
                service_wf(old(self)@),
                pre == old(self)@.opened,
                self@.opened.len() == self.opened@.len(),
                pre.len() == self@.opened.len(),
                i <= pre.len(),
                self@.config == old(self)@.config,
                self@.clipboard == old(self)@.clipboard,
                self@.events.handlers == old(self)@.events.handlers,
                self@.events.next_id == old(self)@.events.next_id,
                old(self)@.events.pending.len() <= self@.events.pending.len(),
                self@.events.pending.subrange(0, old(self)@.events.pending.len() as int) == old(
                    self)@.events.pending,
                service_wf(self@),
                forall|j: int|
                    0 <= j < pre.len() ==> (#[trigger] self@.opened[j]).0 == pre[j].0,
                forall|j: int| i <= j < pre.len() ==> (#[trigger] self@.opened[j]).1 == pre[j].1,
                forall|j: int|
                    0 <= j < i ==> ((pre[j].1.autolock_at matches Some(t) && t < now) ==> (
                    #[trigger] self@.opened[j]).1 == (SecretsStoreView {
                        unlocked_by: None,
                        key: None,
                        autolock_at: None,
                        index: Seq::<crate::secrets_store::IndexEntryView>::empty(),
                        ..pre[j].1
                    })),
                forall|j: int|
                    0 <= j < i ==> (!(pre[j].1.autolock_at matches Some(t) && t < now) ==> (
                    #[trigger] self@.opened[j]).1 == pre[j].1),
            decreases pre.len() - i,
        {
            let ghost before = self@.opened;
            let ghost bex = self.opened@;
            let mut entry = self.opened.remove(i);
            proof {
                assert(before[i as int] == (entry.0@, entry.1@));
                assert(store_wf(entry.1@));
            }
            let deadline = entry.1.status().autolock_at;
            let expired = match deadline {
                Some(t) => t < now,
                None => false,
            };
            if expired {
                proof {
                    assert(entry.1@ == before[i as int].1);
                    assert(store_wf(entry.1@));
                }
                entry.1.lock();
                self.events.send(Event::StoreLocked { store_name: entry.0.clone() });
                proof {
                    assert(entry.1@ =~= (SecretsStoreView {
                        unlocked_by: None,
                        key: None,
                        autolock_at: None,
                        index: Seq::<crate::secrets_store::IndexEntryView>::empty(),
                        ..before[i as int].1
                    }));
                    assert(self@.events.pending.subrange(
                        0,
                        old(self)@.events.pending.len() as int,
                    ) =~= old(self)@.events.pending);
                }
            }
            self.opened.insert(i, entry);
            proof {
                assert forall|j: int| 0 <= j < pre.len() implies #[trigger] self@.opened[j] == (
                if j == i { (before[i as int].0, self.opened@[i as int].1@) } else { before[j] }) by {
                    assert(self@.opened[j] == (self.opened@[j].0@, self.opened@[j].1@));
                    if j < i {
                        assert(self.opened@[j] == bex.remove(i as int).insert(i as int, entry)[j]);
                        assert(self.opened@[j] == bex[j]);
                        assert(before[j] == (bex[j].0@, bex[j].1@));
                    } else if j > i {
                        assert(self.opened@[j] == bex.remove(i as int).insert(i as int, entry)[j]);
                        assert(bex.remove(i as int)[j - 1] == bex[j]);
                        assert(self.opened@[j] == bex[j]);
                        assert(before[j] == (bex[j].0@, bex[j].1@));
                    } else {
                        assert(before[i as int].0 == bex[i as int].0@);
                    }
                }
            }
            i = i + 1;
        }
    }

    /// Run the autolock sweep against the wall clock.
    pub fn check_autolock(&mut self)
        requires
            service_wf(old(self)@),
        ensures
            service_wf(final(self)@),
            final(self)@.config == old(self)@.config,
            final(self)@.opened.len() == old(self)@.opened.len(),
            forall|i: int|
                0 <= i < old(self)@.opened.len() ==> (#[trigger] final(self)@.opened[i]).0 == old(
                    self)@.opened[i].0,
            forall|i: int|
                0 <= i < old(self)@.opened.len() ==> ((#[trigger] final(self)@.opened[i]).1 == old(
                    self)@.opened[i].1 || final(self)@.opened[i].1.unlocked_by is None),
    {
        let now = now_millis();
        self.check_autolock_at(now);
    }

    /// Register an event subscriber; the returned subscription's id is
    /// handed back to `unsubscribe` when the subscriber goes away.
    pub fn add_event_handler(&mut self) -> (r: Result<LocalEventSubscription, ServiceError>)
        ensures
            r matches Ok(sub) ==> final(self)@.events.handlers == old(
                self)@.events.handlers.push(sub.id),
            r is Err ==> final(self)@ == old(self)@,
            final(self)@.config == old(self)@.config,
            final(self)@.opened == old(self)@.opened,
            final(self)@.events.pending == old(self)@.events.pending,
    {
        match self.events.add_event_handler() {
            Ok(id) => Ok(LocalEventSubscription::new(id)),
            Err(e) => Err(e),
        }
    }

    /// The registered subscriber ids.
    pub fn event_handlers(&self) -> (r: Vec<u32>)
        ensures
            r@ == self@.events.handlers,
    {
        self.events.handlers()
    }

    /// Hand out the queued events and empty the queue. The embedding
    /// program calls every subscriber's handler with each drained event.
    pub fn take_pending_events(&mut self) -> (r: Vec<Event>)
        ensures
            r@ == old(self)@.events.pending,
            final(self)@.events.pending.len() == 0,
            final(self)@.events.handlers == old(self)@.events.handlers,
            final(self)@.config == old(self)@.config,
            final(self)@.opened == old(self)@.opened,
            final(self)@.clipboard == old(self)@.clipboard,
    {
        let r = self.events.take_pending();
        proof {
            assert(final(self)@.opened =~= old(self)@.opened);
        }
        r
    }

    /// Return a subscription's id.
    pub fn unsubscribe(&mut self, sub: LocalEventSubscription)
        ensures
            final(self)@.config == old(self)@.config,
            final(self)@.opened == old(self)@.opened,
            forall|j: int|
                0 <= j < final(self)@.events.handlers.len() ==> (#[trigger] final(
                self)@.events.handlers[j]) != sub.id,
            forall|x: u32|
                old(self)@.events.handlers.contains(x) && x != sub.id ==> final(
                self)@.events.handlers.contains(x),
    {
        self.events.remove_event_handler(sub.id);
        proof {
            assert(final(self)@.opened =~= old(self)@.opened);
        }
    }
}

impl LocalTrustlessService {
    /// Fetch a secret's current version and hand its chosen property
    /// values to a fresh clipboard provider, replacing (and destroying)
    /// any provider still held.
    pub fn secret_to_clipboard(
        &mut self,
        store_name: &str,
        secret_id: &str,
        properties: &Vec<String>,
        display_name: &str,
        now: u64,
    ) -> (r: Result<(), ServiceError>)
        requires
            service_wf(old(self)@),
        ensures
            service_wf(final(self)@),
            final(self)@.config == old(self)@.config,
            !opened_has(old(self)@.opened, store_name@) && !config_has(
                old(self)@.config,
                store_name@,
            ) ==> (r matches Err(ServiceError::StoreNotFound(n)) && n@ == store_name@) && final(
                self)@ == old(self)@,
            r is Ok ==> (final(self)@.clipboard matches Some(d) && !d.done && d.pos == 0 && d.name
                == display_name@ && d.values.len() == properties@.len()),
            forall|i: int, m: crate::secrets_store::VersionMetaView, bytes: Seq<u8>, w: crate::api::SecretVersionView|
                #![trigger old(self)@.opened[i], is_current_meta(old(self)@.opened[i].1.index, secret_id@, m), spec_has_block(old(self)@.opened[i].1.blocks.entries, m.block_id, bytes), spec_block_yields(bytes, old(self)@.opened[i].1.unlocked_by.unwrap(), old(self)@.opened[i].1.key.unwrap(), w)]
                {
                    &&& 0 <= i < old(self)@.opened.len()
                    &&& old(self)@.opened[i].0 == store_name@
                    &&& old(self)@.opened[i].1.unlocked_by is Some
                    &&& is_current_meta(old(self)@.opened[i].1.index, secret_id@, m)
                    &&& spec_has_block(old(self)@.opened[i].1.blocks.entries, m.block_id, bytes)
                    &&& spec_block_yields(bytes, old(self)@.opened[i].1.unlocked_by.unwrap(),
                        old(self)@.opened[i].1.key.unwrap(), w)
                } ==> r is Ok && (final(self)@.clipboard matches Some(d) && d.values == Seq::new(
                    properties@.len() as nat,
                    |j: int| spec_property_value(w.properties, properties@[j]@),
                )),
    {
        let ghost pre = self@;
        if let Err(e) = self.open_store(store_name) {
            return Err(e);
        }
        proof {
            if opened_has(pre.opened, store_name@) {
                assert(self@ == pre);
            }
        }
        let secret = {
            let store = match self.store_mut(store_name) {
                Some(s) => s,
                None => {
                    return Err(ServiceError::StoreNotFound(store_name.to_owned()));
                },
            };
            let ghost sv = (*store)@;
            let got = store.get(secret_id, now);
            proof {
                if opened_has(pre.opened, store_name@) {
                    lemma_store_for_name(pre.opened, store_name@, sv);
                }
            }
            match got {
                Ok(s) => s,
                Err(e) => {
                    return Err(ServiceError::SecretsStore(e));
                },
            }
        };
        let values = select_properties(&secret.current.properties, properties);
        match &mut self.clipboard {
            Some(old_provider) => {
                old_provider.destroy();
            },
            None => {},
        }
        self.clipboard = Some(
            SelectionDebounce::new(display_name.to_owned(), values, now),
        );
        self.events.send(
            Event::ClipboardProviding {
                store_name: store_name.to_owned(),
                secret_id: secret_id.to_owned(),
            },
        );
        proof {
            assert forall|
                i: int,
                m: crate::secrets_store::VersionMetaView,
                bytes: Seq<u8>,
                w: crate::api::SecretVersionView,
            |
                {
                    &&& 0 <= i < pre.opened.len()
                    &&& #[trigger] pre.opened[i].0 == store_name@
                    &&& pre.opened[i].1.unlocked_by is Some
                    &&& #[trigger] is_current_meta(pre.opened[i].1.index, secret_id@, m)
                    &&& #[trigger] spec_has_block(pre.opened[i].1.blocks.entries, m.block_id,
                        bytes)
                    &&& #[trigger] spec_block_yields(bytes, pre.opened[i].1.unlocked_by.unwrap(),
                        pre.opened[i].1.key.unwrap(), w)
                } implies (final(self)@.clipboard matches Some(d) && d.values == Seq::new(
                properties@.len() as nat,
                |j: int| spec_property_value(w.properties, properties@[j]@),
            )) by {
                assert(secret.current@ == w);
                assert(secret.current@.properties == crate::api::prop_seq_view(
                    secret.current.properties@,
                ));
                let d = final(self)@.clipboard.unwrap();
                assert(d.values =~= Seq::new(
                    properties@.len() as nat,
                    |j: int| spec_property_value(w.properties, properties@[j]@),
                )) by {
                    assert forall|j: int| 0 <= j < properties@.len() implies d.values[j]
                        == spec_property_value(w.properties, properties@[j]@) by {
                        assert(d.values[j] == values@[j]@);
                    }
                }
            }
        }
        Ok(())
    }

    /// The clipboard slot is empty or its provider has finished.
    pub fn clipboard_is_done(&self) -> (r: bool)
        ensures
            r == (match self@.clipboard {
                Some(d) => d.done,
                None => true,
            }),
    {
        match &self.clipboard {
            Some(d) => d.is_done(),
            None => true,
        }
    }

    /// The display name the clipboard provider is serving, while open.
    pub fn clipboard_currently_providing(&self) -> (r: Option<String>)
        ensures
            r is Some <==> (self@.clipboard matches Some(d) && !d.done),
            r matches Some(n) ==> n@ == self@.clipboard.unwrap().name,
    {
        match &self.clipboard {
            Some(d) => d.current_selection_name(),
            None => None,
        }
    }

    /// Wipe and finish the clipboard provider, if one is held.
    pub fn clipboard_destroy(&mut self)
        ensures
            final(self)@.config == old(self)@.config,
            final(self)@.opened == old(self)@.opened,
            final(self)@.clipboard is Some <==> old(self)@.clipboard is Some,
            final(self)@.clipboard matches Some(d) ==> d.done && (forall|i: int|
                0 <= i < d.values.len() ==> (#[trigger] d.values[i]).len() == 0),
            old(self)@.clipboard is None ==> final(self)@ == old(self)@,
    {
        match &mut self.clipboard {
            Some(d) => {
                d.destroy();
            },
            None => {
                return ;
            },
        }
        self.events.send(Event::ClipboardDone);
        proof {
            assert(final(self)@.opened =~= old(self)@.opened);
        }
    }

    /// Answer one paste request from the held provider.
    pub fn clipboard_get_selection(&mut self, now: u64) -> (r: Option<String>)
        ensures
            final(self)@.config == old(self)@.config,
            final(self)@.opened == old(self)@.opened,
            old(self)@.clipboard is None ==> r is None && final(self)@.clipboard is None,
            old(self)@.clipboard matches Some(d) ==> ({
                let (d2, out) = crate::clipboard::spec_get_selection(d, now);
                &&& final(self)@.clipboard == Some(d2)
                &&& (r is Some <==> out is Some)
                &&& (r matches Some(s) ==> Some(s@) == out)
            }),
    {
        let r = match &mut self.clipboard {
            Some(d) => d.get_selection(now),
            None => None,
        };
        proof {
            assert(final(self)@.opened =~= old(self)@.opened);
        }
        r
    }

    /// Open (on demand) and unlock a store for an identity, announcing the
    /// unlock to subscribers on success.
    pub fn unlock_store(
        &mut self,
        store_name: &str,
        identity_id: &str,
        passphrase: &SecretBytes,
        now: u64,
    ) -> (r: Result<(), ServiceError>)
        requires
            service_wf(old(self)@),
        ensures
            service_wf(final(self)@),
            final(self)@.config == old(self)@.config,
            final(self)@.clipboard == old(self)@.clipboard,
            !opened_has(old(self)@.opened, store_name@) && !config_has(
                old(self)@.config,
                store_name@,
            ) ==> (r matches Err(ServiceError::StoreNotFound(n)) && n@ == store_name@) && final(
                self)@ == old(self)@,
            r is Err ==> final(self)@.events.pending == old(self)@.events.pending,
            r is Ok ==> (exists|i: int|
                0 <= i < final(self)@.opened.len() && (#[trigger] final(self)@.opened[i]).0
                    == store_name@ && final(self)@.opened[i].1.unlocked_by == Some(identity_id@)),
            r is Ok ==> final(self)@.events.pending.len() == old(self)@.events.pending.len() + 1
                && final(self)@.events.pending.subrange(
                0,
                old(self)@.events.pending.len() as int,
            ) == old(self)@.events.pending && (final(self)@.events.pending.last() matches
            Event::StoreUnlocked { store_name: n, identity_id: u } && n@ == store_name@ && u@
                == identity_id@),
    {
        if let Err(e) = self.open_store(store_name) {
            return Err(e);
        }
        {
            let store = match self.store_mut(store_name) {
                Some(s) => s,
                None => {
                    proof {
                        assert(false);
                    }
                    return Err(ServiceError::StoreNotFound(store_name.to_owned()));
                },
            };
            if let Err(e) = store.unlock(identity_id, passphrase, now) {
                return Err(ServiceError::SecretsStore(e));
            }
        }
        if self.find_opened(store_name).is_none() {
            return Err(ServiceError::StoreNotFound(store_name.to_owned()));
        }
        let ghost po = self@.opened;
        proof {
            assert forall|i: int|
                0 <= i < po.len() && (#[trigger] po[i]).0 == store_name@ implies po[i].1.unlocked_by
                == Some(identity_id@) by {}
            assert(opened_has(po, store_name@));
        }
        self.events.send(
            Event::StoreUnlocked {
                store_name: store_name.to_owned(),
                identity_id: identity_id.to_owned(),
            },
        );
        proof {
            assert(self@.opened =~= po);
            let i0 = choose|i: int| 0 <= i < po.len() && (#[trigger] po[i]).0 == store_name@;
            assert(self@.opened[i0] == po[i0]);
            assert(final(self)@.events.pending.subrange(
                0,
                old(self)@.events.pending.len() as int,
            ) =~= old(self)@.events.pending);
        }
        Ok(())
    }

    /// Lock an opened store, announcing the lock to subscribers.
    pub fn lock_store(&mut self, store_name: &str) -> (r: Result<(), ServiceError>)
        requires
            service_wf(old(self)@),
        ensures
            service_wf(final(self)@),
            final(self)@.config == old(self)@.config,
            final(self)@.clipboard == old(self)@.clipboard,
            r is Ok <==> opened_has(old(self)@.opened, store_name@),
            r is Err ==> (r matches Err(ServiceError::StoreNotFound(n)) && n@ == store_name@)
                && final(self)@ == old(self)@,
            r is Ok ==> (exists|i: int|
                0 <= i < old(self)@.opened.len() && (#[trigger] old(self)@.opened[i]).0
                    == store_name@ && final(self)@.opened == old(self)@.opened.update(
                    i,
                    (store_name@, (SecretsStoreView {
                        unlocked_by: None,
                        key: None,
                        autolock_at: None,
                        index: Seq::<crate::secrets_store::IndexEntryView>::empty(),
                        ..old(self)@.opened[i].1
                    })),
                )),
            r is Ok ==> final(self)@.events.pending.len() == old(self)@.events.pending.len() + 1
                && final(self)@.events.pending.subrange(
                0,
                old(self)@.events.pending.len() as int,
            ) == old(self)@.events.pending && (final(self)@.events.pending.last() matches
            Event::StoreLocked { store_name: n } && n@ == store_name@),
    {
        {
            let store = match self.store_mut(store_name) {
                Some(s) => s,
                None => {
                    return Err(ServiceError::StoreNotFound(store_name.to_owned()));
                },
            };
            store.lock();
            proof {
                assert(final(store)@ =~= (SecretsStoreView {
                    unlocked_by: None,
                    key: None,
                    autolock_at: None,
                    index: Seq::<crate::secrets_store::IndexEntryView>::empty(),
                    ..(*store)@
                }));
            }
        }
        let ghost po = self@.opened;
        proof {
            let i0 = choose|i: int|
                0 <= i < old(self)@.opened.len() && (#[trigger] old(self)@.opened[i]).0
                    == store_name@;
            assert(po =~= old(self)@.opened.update(
                i0,
                (store_name@, (SecretsStoreView {
                    unlocked_by: None,
                    key: None,
                    autolock_at: None,
                    index: Seq::<crate::secrets_store::IndexEntryView>::empty(),
                    ..old(self)@.opened[i0].1
                })),
            ));
        }
        self.events.send(Event::StoreLocked { store_name: store_name.to_owned() });
        proof {
            assert(self@.opened =~= po);
            assert(final(self)@.events.pending.subrange(
                0,
                old(self)@.events.pending.len() as int,
            ) =~= old(self)@.events.pending);
        }
        Ok(())
    }

    /// Store a secret version in an opened (on demand) store, announcing
    /// the change to subscribers on success.
    pub fn store_secret(&mut self, store_name: &str, version: &SecretVersion, now: u64) -> (r:
        Result<String, ServiceError>)
        requires
            service_wf(old(self)@),
        ensures
            service_wf(final(self)@),
            final(self)@.config == old(self)@.config,
            final(self)@.clipboard == old(self)@.clipboard,
            !opened_has(old(self)@.opened, store_name@) && !config_has(
                old(self)@.config,
                store_name@,
            ) ==> (r matches Err(ServiceError::StoreNotFound(n)) && n@ == store_name@) && final(
                self)@ == old(self)@,
            r is Err ==> final(self)@.events.pending == old(self)@.events.pending,
            (exists|i: int|
                0 <= i < old(self)@.opened.len() && (#[trigger] old(self)@.opened[i]).0
                    == store_name@ && old(self)@.opened[i].1.unlocked_by is Some)
                && spec_enc_version(version@).len() < 0x3f_ffff_ffc0 ==> r is Ok,
            r is Ok ==> final(self)@.events.pending.len() == old(self)@.events.pending.len() + 1
                && final(self)@.events.pending.subrange(
                0,
                old(self)@.events.pending.len() as int,
            ) == old(self)@.events.pending && (final(self)@.events.pending.last() matches
            Event::SecretStored { store_name: n, secret_id: s } && n@ == store_name@ && s@
                == version@.secret_id),
    {
        let ghost pre = self@;
        if let Err(e) = self.open_store(store_name) {
            return Err(e);
        }
        proof {
            if opened_has(pre.opened, store_name@) {
                assert(self@ == pre);
            }
        }
        let block_id = {
            let store = match self.store_mut(store_name) {
                Some(s) => s,
                None => {
                    proof {
                        assert(false);
                    }
                    return Err(ServiceError::StoreNotFound(store_name.to_owned()));
                },
            };
            let ghost sv = (*store)@;
            let added = store.add(version, now);
            proof {
                if opened_has(pre.opened, store_name@) {
                    lemma_store_for_name(pre.opened, store_name@, sv);
                }
            }
            match added {
                Ok(id) => id,
                Err(e) => {
                    return Err(ServiceError::SecretsStore(e));
                },
            }
        };
        self.events.send(
            Event::SecretStored {
                store_name: store_name.to_owned(),
                secret_id: version.secret_id.clone(),
            },
        );
        proof {
            assert(final(self)@.events.pending.subrange(
                0,
                old(self)@.events.pending.len() as int,
            ) =~= old(self)@.events.pending);
        }
        Ok(block_id)
    }
}

/// The values of the named properties, in the order asked for; a name with
/// no matching property yields the empty string.
pub open spec fn spec_property_value(
    props: Seq<crate::api::PropertyView>,
    name: Seq<char>,
) -> Seq<char>
    decreases props.len(),
{
    if props.len() == 0 {
        Seq::<char>::empty()
    } else if props.first().name == name {
        props.first().value
    } else {
        spec_property_value(props.drop_first(), name)
    }
}

/// Select the named property values of a version, in order.
pub fn select_properties(props: &Vec<crate::api::Property>, names: &Vec<String>) -> (r: Vec<
    String,
>)
    ensures
        r@.len() == names@.len(),
        forall|i: int|
            0 <= i < r@.len() ==> (#[trigger] r@[i])@ == spec_property_value(
                crate::api::prop_seq_view(props@),
                names@[i]@,
            ),
{
    let mut out: Vec<String> = Vec::new();
    let mut i: usize = 0;
    while i < names.len()
        invariant
            i <= names@.len(),
            out@.len() == i,
            forall|j: int|
                0 <= j < i ==> (#[trigger] out@[j])@ == spec_property_value(
                    crate::api::prop_seq_view(props@),
                    names@[j]@,
                ),
        decreases names@.len() - i,
    {
        out.push(property_value(props, names[i].as_str()));
        i = i + 1;
    }
    out
}

/// The value of the first property carrying `name`, or the empty string.
fn property_value(props: &Vec<crate::api::Property>, name: &str) -> (r: String)
    ensures
        r@ == spec_property_value(crate::api::prop_seq_view(props@), name@),
{
    let ghost pv = crate::api::prop_seq_view(props@);
    let mut i: usize = 0;
    proof {
        assert(pv.skip(0) == pv);
    }
    while i < props.len()
        invariant
            i <= props@.len(),
            pv == crate::api::prop_seq_view(props@),
            pv.len() == props@.len(),
            spec_property_value(pv, name@) == spec_property_value(pv.skip(i as int), name@),
        decreases props@.len() - i,
    {
        proof {
            assert(pv.skip(i as int).first() == pv[i as int]);
            assert(pv.skip(i as int).drop_first() == pv.skip(i as int + 1));
            assert(pv[i as int] == props@[i as int]@);
        }
        if str_eq(props[i].name.as_str(), name) {
            return props[i].value.clone();
        }
        i = i + 1;
    }
    proof {
        assert(pv.skip(pv.len() as int).len() == 0);
    }
    String::new()
}

/// Under unique store names, the store borrowed for `name` is the one at
/// the index carrying `name`.
proof fn lemma_store_for_name(
    opened: Seq<(Seq<char>, SecretsStoreView)>,
    name: Seq<char>,
    sv: SecretsStoreView,
)
    requires
        forall|a: int, b: int|
            0 <= a < b < opened.len() ==> (#[trigger] opened[a]).0 != (#[trigger] opened[b]).0,
        exists|i: int|
            0 <= i < opened.len() && (#[trigger] opened[i]).0 == name && opened[i].1 == sv,
    ensures
        forall|i: int|
            0 <= i < opened.len() && (#[trigger] opened[i]).0 == name ==> opened[i].1 == sv,
{
    let i0 = choose|i: int|
        0 <= i < opened.len() && (#[trigger] opened[i]).0 == name && opened[i].1 == sv;
    assert forall|i: int|
        0 <= i < opened.len() && (#[trigger] opened[i]).0 == name implies opened[i].1 == sv by {
        if i != i0 {
            assert(opened[i].0 != opened[i0].0);
        }
    }
}

/// A local service over the given configuration.
pub fn create_service(config: Config) -> (r: Result<LocalTrustlessService, ServiceError>)
    requires
        config_wf(config@),
    ensures
        r matches Ok(s) ==> service_wf(s@) && s@.config == config@ && s@.opened.len() == 0
            && s@.clipboard is None && s@.events.handlers.len() == 0 && s@.events.next_id == 0
            && s@.events.pending.len() == 0,
        r is Ok,
{
    LocalTrustlessService::new(config)
}

} // verus!
