//! Descriptions of a package and of the applications built from it.

use vstd::prelude::*;
use vstd::string::StringExecFns;

verus! {

/// What a package says about itself.
#[derive(Debug, Clone)]
pub struct PackageInfo {
    /// Name.
    pub name: &'static str,
    /// Version.
    pub version: &'static str,
    /// Authors.
    pub authors: &'static str,
    /// Description.
    pub description: &'static str,
    /// Build date.
    pub build_date: &'static str,
}

impl PackageInfo {
    /// `v<version>  build: <build date>`.
    pub fn full_version(&self) -> (r: String)
        ensures
            r@ == seq!['v'] + self.version@ + "  build: "@ + self.build_date@,
    {
        let mut r = String::from_str("v");
        r.append(self.version);
        r.append("  build: ");
        r.append(self.build_date);
        proof {
            reveal_strlit("v");
        }
        r
    }
}

/// An application of a project (a project may hold several).
#[derive(Debug, Clone)]
pub struct AppInfo {
    /// Name of the application.
    pub name: String,
    /// What the application is about.
    pub about: String,
    /// The package it belongs to.
    pub package: PackageInfo,
}

impl AppInfo {
    /// Application info from its name, description and package.
    pub fn new(name: &str, about: &str, package: PackageInfo) -> (a: AppInfo)
        ensures
            a.name@ == name@,
            a.about@ == about@,
            a.package == package,
    {
        AppInfo { name: name.to_owned(), about: about.to_owned(), package }
    }

    /// `<package name>-<application name>`.
    pub fn full_name(&self) -> (r: String)
        ensures
            r@ == self.package.name@ + seq!['-'] + self.name@,
    {
        let mut r = self.package.name.to_owned();
        r.append("-");
        r.append(self.name.as_str());
        proof {
            reveal_strlit("-");
        }
        r
    }
}

} // verus!
