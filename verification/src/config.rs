//! Session configuration: which shell to spawn and the buffer sizes used by
//! the transport loop around the library.

use vstd::prelude::*;

verus! {

pub struct Config {
    pub shell: String,
    pub shell_args: Vec<String>,
    pub read_buf_size: usize,
    pub channel_buf_size: usize,
}

impl Clone for Config {
    fn clone(&self) -> (r: Config)
        ensures
            r.shell@ == self.shell@,
            r.shell_args@.len() == self.shell_args@.len(),
            forall|i: int|
                0 <= i < self.shell_args@.len() ==> r.shell_args@[i]@ == self.shell_args@[i]@,
            r.read_buf_size == self.read_buf_size,
            r.channel_buf_size == self.channel_buf_size,
    {
        let mut shell_args: Vec<String> = Vec::new();
        let mut i: usize = 0;
        while i < self.shell_args.len()
            invariant
                i <= self.shell_args@.len(),
                shell_args@.len() == i,
                forall|j: int|
                    0 <= j < i ==> shell_args@[j]@ == self.shell_args@[j]@,
            decreases self.shell_args@.len() - i,
        {
            shell_args.push(self.shell_args[i].clone());
            i = i + 1;
        }
        Config {
            shell: self.shell.clone(),
            shell_args,
            read_buf_size: self.read_buf_size,
            channel_buf_size: self.channel_buf_size,
        }
    }
}

impl Default for Config {
    fn default() -> (r: Config)
        ensures
            r.shell@ == "/usr/bin/bash"@,
            r.shell_args@.len() == 1,
            r.shell_args@[0]@ == "-i"@,
            r.read_buf_size == 1024,
            r.channel_buf_size == 100,
    {
        let mut shell_args: Vec<String> = Vec::new();
        shell_args.push(String::from_str("-i"));
        Config {
            shell: String::from_str("/usr/bin/bash"),
            shell_args,
            read_buf_size: 1024,
            channel_buf_size: 100,
        }
    }
}

} // verus!
