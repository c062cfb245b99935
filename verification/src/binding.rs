//! The face that the library shows to a scripting host: one class,
//! `ConfigStore`, which drives a store by the paths of configuration files.

use vstd::prelude::*;
use crate::error::ConfigError;
use crate::source::{fname_to_cfg_name, spec_file_name};
use crate::store::{
    add_outcome, deltas_of, id_values, listing, name_versions, resolvable, resolve, version_view,
    Rows, Store,
};
use crate::value::ConfigValue;

verus! {

/// What a scripting host knows of a module: the names of the classes that
/// were registered with it, in the order of registration.
pub struct Module {
    classes: Vec<String>,
}

impl View for Module {
    type V = Seq<Seq<char>>;

    closed spec fn view(&self) -> Seq<Seq<char>> {
        Seq::new(self.classes@.len(), |i: int| self.classes@[i]@)
    }
}

impl Module {
    /// A module without classes.
    pub fn new() -> (m: Module)
        ensures
            m@ == Seq::<Seq<char>>::empty(),
    {
        let m = Module { classes: Vec::new() };
        assert(m@ =~= Seq::empty());
        m
    }

    /// Registers a class under `name`.
    pub fn add_class(&mut self, name: &str)
        ensures
            final(self)@ == old(self)@.push(name@),
    {
        self.classes.push(name.to_owned());
        assert(self@ =~= old(self)@.push(name@));
    }

    /// The number of classes registered.
    pub fn len(&self) -> (n: usize)
        ensures
            n == self@.len(),
    {
        self.classes.len()
    }

    /// The name of the class registered at position `i`.
    pub fn class(&self, i: usize) -> (name: &String)
        requires
            i < self@.len(),
        ensures
            name@ == self@[i as int],
    {
        &self.classes[i]
    }
}

/// Registers with `m` what the library offers to a scripting host: the class
/// `ConfigStore`.
pub fn delta_db(m: &mut Module) -> (done: Result<(), ConfigError>)
    ensures
        done is Ok,
        final(m)@ == old(m)@.push("ConfigStore"@),
{
    m.add_class("ConfigStore");
    Ok(())
}

/// A store as a scripting host drives it: configurations are submitted by the
/// path of their file, and stored under the name of the file.
pub struct ConfigStore {
    s: Store,
}

impl View for ConfigStore {
    type V = Rows;

    closed spec fn view(&self) -> Rows {
        self.s@
    }
}

impl ConfigStore {
    /// The store keeps its tables as every store must.
    pub open spec fn wf(&self) -> bool {
        self@.wf()
    }

    /// A store without rows.
    pub fn new() -> (store: ConfigStore)
        ensures
            store.wf(),
            store@.bases.len() == 0,
            store@.deltas.len() == 0,
    {
        ConfigStore { s: Store::new() }
    }

    /// Submits the configuration `cfg`, read from the file at `path`, under
    /// the name of that file. A path that names no file is not found.
    pub fn add_config(&mut self, path: &str, cfg: ConfigValue) -> (added: Result<(), ConfigError>)
        requires
            old(self).wf(),
            cfg.wf(),
        ensures
            final(self).wf(),
            match spec_file_name(path@) {
                Some(name) => match added {
                    Ok(_) => add_outcome(old(self)@, name, cfg@) == Ok::<Rows, ConfigError>(
                        final(self)@,
                    ),
                    Err(e) => {
                        &&& add_outcome(old(self)@, name, cfg@) == Err::<Rows, ConfigError>(e)
                        &&& final(self)@ == old(self)@
                    },
                },
                None => added == Err::<(), ConfigError>(ConfigError::NotFound) && final(self)@
                    == old(self)@,
            },
    {
        match fname_to_cfg_name(path) {
            Some(name) => self.s.add_config(name.as_str(), cfg),
            None => Err(ConfigError::NotFound),
        }
    }

    /// The names under which bases are stored, each with its highest version.
    pub fn get_configs(&self) -> (found: Result<Vec<(String, i64)>, ConfigError>)
        requires
            self.wf(),
        ensures
            found matches Ok(list) && name_versions(list@) == listing(
                self@.bases,
                self@.bases.len(),
            ),
    {
        self.s.get_base_configs()
    }

    /// Every delta against the base asked for, with its id, in the order of
    /// the ids.
    pub fn get_deltas(&self, name: &str, version: Option<i64>) -> (found: Result<
        Vec<(i64, ConfigValue)>,
        ConfigError,
    >)
        requires
            self.wf(),
        ensures
            match found {
                Ok(list) => {
                    &&& resolvable(self@.bases, name@, version_view(version))
                    &&& id_values(list@) == deltas_of(
                        self@.deltas,
                        self@.bases[resolve(self@.bases, name@, version_view(version))].fingerprint,
                        self@.deltas.len(),
                    )
                },
                Err(e) => {
                    &&& !resolvable(self@.bases, name@, version_view(version))
                    &&& e == ConfigError::NotFound
                },
            },
    {
        let fingerprint = match self.s.get_base_config_hash(name, version) {
            Ok(fingerprint) => fingerprint,
            Err(e) => {
                return Err(e);
            },
        };
        let wide = match version {
            Some(v) => {
                proof {
                    self.s.lemma_versions_start_at_zero(name@, v as int);
                }
                Some(v as u64)
            },
            None => None,
        };
        self.s.get_all_deltas(name, wide)
    }

    /// The configuration that the base asked for stands for after the last
    /// delta against it.
    pub fn get_latest_config(&self, name: &str, version: Option<i64>) -> (found: Result<
        ConfigValue,
        ConfigError,
    >)
        requires
            self.wf(),
        ensures
            match found {
                Ok(value) => {
                    &&& resolvable(self@.bases, name@, version_view(version))
                    &&& value@ == self@.latest_of(
                        resolve(self@.bases, name@, version_view(version)),
                    )
                    &&& value.wf()
                },
                Err(e) => {
                    &&& !resolvable(self@.bases, name@, version_view(version))
                    &&& e == ConfigError::NotFound
                },
            },
    {
        self.s.get_latest_config(name, version)
    }
}

} // verus!
