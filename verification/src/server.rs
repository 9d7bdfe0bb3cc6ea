//! Where the conversion service listens.

use vstd::prelude::*;

verus! {

/// The address and the port of the service.
pub struct Server {
    address: [u8; 4],
    port: u16,
}

impl Server {
    pub closed spec fn spec_address(&self) -> Seq<u8> {
        self.address@
    }

    pub closed spec fn spec_port(&self) -> u16 {
        self.port
    }

    /// A server on the loopback address, port 3000.
    pub fn new() -> (server: Server)
        ensures
            server.spec_address() == seq![127u8, 0u8, 0u8, 1u8],
            server.spec_port() == 3000,
    {
        let address: [u8; 4] = [127, 0, 0, 1];
        let port: u16 = 3000;
        assert(address@ =~= seq![127u8, 0u8, 0u8, 1u8]);
        Server { address, port }
    }

    pub fn address(&self) -> (address: [u8; 4])
        ensures
            address@ == self.spec_address(),
    {
        self.address
    }

    pub fn port(&self) -> (port: u16)
        ensures
            port == self.spec_port(),
    {
        self.port
    }
}

impl Default for Server {
    fn default() -> (server: Server)
        ensures
            server.spec_address() == seq![127u8, 0u8, 0u8, 1u8],
            server.spec_port() == 3000,
    {
        Server::new()
    }
}

} // verus!
